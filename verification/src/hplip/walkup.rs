//! Appearing under *Scan to Computer* on an HP panel.
//!
//! An HP network MFP offers a host on its panel only once that host has been written into
//! a collection the device serves over plain HTTP. A destination there persists until it is
//! deleted, and the collection holds only so many, so registering sweeps this host's own
//! stale entries before it adds one.
//!
//! Nothing here opens a socket. [`Install`] says which request to send next and takes what
//! came back; [`crate::hplip::http`] turns requests into bytes and bytes into responses.
use vstd::prelude::*;
use vstd::slice::slice_to_vec;
use vstd::utf8::encode_utf8;

use crate::hplip::xml::{
    next_event, open_document, pending_events, predefined, resolve_entity, text_or_refusal,
    xml_events, XmlEvent, XmlEventView,
};
use crate::hostname::{file_views, first_hostname, read_hostname};
use crate::model::{BackendError, BackendErrorView, ScannerId};
use crate::text;
use crate::text::{
    before, decimal, drop_trailing, lower, parse_unsigned, quoted, same_ignoring_case, split,
    split_once, trim,
};
use crate::time::{span_text, Duration};

verus! {

/// Where a device serves its documents.
pub const DEFAULT_PORT: u16 = 80;

/// The capability document.
pub const CAPS_PATH: &'static str = "/WalkupScanToComp/WalkupScanToCompCaps";

/// The collection of registered hosts.
pub const DESTINATIONS_PATH: &'static str = "/WalkupScanToComp/WalkupScanToCompDestinations";

/// The only `Content-Type` the device accepts for a registration.
pub const XML_MEDIA_TYPE: &'static str = "text/xml";

/// A collection or capability document came back.
pub const OK: u16 = 200;

/// A destination was registered; `Location` carries its URI.
pub const CREATED: u16 = 201;

/// A destination was deleted.
pub const NO_CONTENT: u16 = 204;

/// The document was refused.
pub const BAD_REQUEST: u16 = 400;

/// No such resource.
pub const NOT_FOUND: u16 = 404;

/// The `Content-Type` was refused, whatever the document said.
pub const UNSUPPORTED_MEDIA_TYPE: u16 = 415;

/// The name of a host whose hostname yields nothing usable.
pub const FALLBACK_PANEL_NAME: &'static str = "scanbus";

/// How long one exchange gets, in seconds.
pub const RESPONSE_TIMEOUT_SECS: u64 = 10;

// -------------------------------------------------------------------------------- device

/// One device's HTTP endpoint.
#[derive(Debug, PartialEq, Eq)]
pub struct Device {
    host: String,
    port: u16,
}

/// What a [`Device`] says.
pub struct DeviceView {
    pub host: Seq<char>,
    pub port: u16,
}

impl View for Device {
    type V = DeviceView;

    closed spec fn view(&self) -> DeviceView {
        DeviceView { host: self.host@, port: self.port }
    }
}

impl Clone for Device {
    fn clone(&self) -> (r: Self)
        ensures
            r@ == self@,
    {
        Device { host: self.host.clone(), port: self.port }
    }
}

/// The value of the last of `pairs` whose key is `key`.
pub open spec fn last_value(pairs: Seq<Seq<char>>, key: Seq<char>) -> Option<Seq<char>>
    decreases pairs.len(),
{
    if pairs.len() == 0 {
        None
    } else {
        match split_once(pairs.last(), '=') {
            Some((k, v)) => if k == key {
                Some(v)
            } else {
                last_value(pairs.drop_last(), key)
            },
            None => last_value(pairs.drop_last(), key),
        }
    }
}

/// The first of three that is there.
pub open spec fn first_of<T>(a: Option<T>, b: Option<T>, c: Option<T>) -> Option<T> {
    match a {
        Some(x) => Some(x),
        None => match b {
            Some(x) => Some(x),
            None => c,
        },
    }
}

/// The host that a device URI names in its query: `ip`, else `hostname`, else `zc`, without
/// trailing dots.
pub open spec fn uri_host(uri: Seq<char>) -> Option<Seq<char>> {
    match split_once(uri, '?') {
        None => None,
        Some((_, query)) => {
            let pairs = split(query, '&');
            match first_of(
                last_value(pairs, "ip"@),
                last_value(pairs, "hostname"@),
                last_value(pairs, "zc"@),
            ) {
                None => None,
                Some(host) => if drop_trailing(host, '.').len() > 0 {
                    Some(drop_trailing(host, '.'))
                } else {
                    None
                },
            }
        },
    }
}

/// What goes in the `Host:` header: an address with colons in brackets, and the port unless
/// it is the default.
pub open spec fn authority_of(d: DeviceView) -> Seq<char> {
    let host = if d.host.contains(':') {
        "["@ + d.host + "]"@
    } else {
        d.host
    };
    if d.port == DEFAULT_PORT {
        host
    } else {
        host + ":"@ + decimal(d.port as nat)
    }
}

/// The value of the last of `pairs` whose key is `key`.
pub fn find_last_value(pairs: &Vec<Vec<char>>, key: &str) -> (r: Option<String>)
    ensures
        match r {
            Some(v) => last_value(text::all_views(pairs@), key@) == Some(v@),
            None => last_value(text::all_views(pairs@), key@) is None,
        },
{
    let k = text::chars(key);
    let ghost all = text::all_views(pairs@);
    let mut i: usize = pairs.len();
    assert(all.take(i as int) =~= all);
    while i > 0
        invariant
            i <= pairs@.len(),
            all == text::all_views(pairs@),
            k@ == key@,
            last_value(all, key@) == last_value(all.take(i as int), key@),
        decreases i,
    {
        proof {
            assert(all.take(i as int).last() == pairs@[i - 1]@);
            assert(all.take(i as int).drop_last() =~= all.take(i - 1));
        }
        match text::halves(pairs[i - 1].as_slice(), '=') {
            Some((name, value)) => {
                if text::same_chars(name, k.as_slice()) {
                    return Some(text::from_chars(value));
                }
            },
            None => {},
        }
        i = i - 1;
    }
    None
}

impl Device {
    /// A device at `host` on the default port.
    pub fn new(host: String) -> (r: Self)
        ensures
            r@ == (DeviceView { host: host@, port: DEFAULT_PORT }),
    {
        Device { host, port: DEFAULT_PORT }
    }

    /// This device on another port.
    pub fn with_port(self, port: u16) -> (r: Self)
        ensures
            r@ == (DeviceView { port, ..self@ }),
    {
        Device { host: self.host, port }
    }

    /// The device that a device URI names, when it is one with a host. A pair without `=`
    /// is passed over.
    pub fn from_device_uri(device_uri: &str) -> (r: Option<Self>)
        ensures
            match r {
                Some(d) => uri_host(device_uri@) == Some(d@.host) && d@.port == DEFAULT_PORT,
                None => uri_host(device_uri@) is None,
            },
    {
        let v = text::chars(device_uri);
        let query = match text::halves(v.as_slice(), '?') {
            Some((_, q)) => q,
            None => {
                return None;
            },
        };
        let pairs = text::pieces(query, '&');
        let host = match find_last_value(&pairs, "ip") {
            Some(h) => h,
            None => match find_last_value(&pairs, "hostname") {
                Some(h) => h,
                None => match find_last_value(&pairs, "zc") {
                    Some(h) => h,
                    None => {
                        return None;
                    },
                },
            },
        };
        let h = text::chars(host.as_str());
        let bare = text::without_trailing(h.as_slice(), '.');
        if bare.len() == 0 {
            None
        } else {
            Some(Device::new(text::from_chars(bare)))
        }
    }

    /// The host, as it was given.
    pub fn host(&self) -> (r: &str)
        ensures
            r@ == self@.host,
    {
        self.host.as_str()
    }

    /// The port.
    pub fn port(&self) -> (r: u16)
        ensures
            r == self@.port,
    {
        self.port
    }

    /// What goes in the `Host:` header.
    pub fn authority(&self) -> (r: String)
        ensures
            r@ == authority_of(self@),
    {
        let v = text::chars(self.host.as_str());
        let at: usize = text::position(v.as_slice(), ':');
        proof {
            text::lemma_index_of(v@, ':');
        }
        let mut out = if at < v.len() {
            let mut bracketed = "[".to_owned();
            bracketed.append(self.host.as_str());
            bracketed.append("]");
            bracketed
        } else {
            self.host.clone()
        };
        if self.port != DEFAULT_PORT {
            out.append(":");
            out.append(text::decimal_text(self.port as u64).as_str());
        }
        out
    }
}

// -------------------------------------------------------------------- requests, responses

/// The three request shapes the walk-up resources need.
#[derive(Debug, Clone, Copy, PartialEq, Eq, Structural)]
pub enum Method {
    Get,
    Post,
    Delete,
}

impl Method {
    /// The method's name.
    pub open spec fn name(self) -> Seq<char> {
        match self {
            Method::Get => "GET"@,
            Method::Post => "POST"@,
            Method::Delete => "DELETE"@,
        }
    }

    /// The method's name.
    pub fn as_str(self) -> (r: &'static str)
        ensures
            r@ == self.name(),
    {
        match self {
            Method::Get => "GET",
            Method::Post => "POST",
            Method::Delete => "DELETE",
        }
    }
}

/// One request to a device.
#[derive(Debug, Clone, PartialEq, Eq)]
pub struct Request {
    method: Method,
    target: String,
    content_type: Option<&'static str>,
    body: Vec<u8>,
}

/// What a [`Request`] says.
pub struct RequestView {
    pub method: Method,
    pub target: Seq<char>,
    pub content_type: Option<Seq<char>>,
    pub body: Seq<u8>,
}

impl View for Request {
    type V = RequestView;

    closed spec fn view(&self) -> RequestView {
        RequestView {
            method: self.method,
            target: self.target@,
            content_type: match self.content_type {
                Some(t) => Some(t@),
                None => None,
            },
            body: self.body@,
        }
    }
}

/// A request without an entity.
pub open spec fn bare_request(method: Method, target: Seq<char>) -> RequestView {
    RequestView { method, target, content_type: None, body: seq![] }
}

/// A `POST` of a document.
pub open spec fn xml_post(target: Seq<char>, body: Seq<u8>) -> RequestView {
    RequestView { method: Method::Post, target, content_type: Some(XML_MEDIA_TYPE@), body }
}

/// How a request is named in messages.
pub open spec fn request_text(r: RequestView) -> Seq<char> {
    r.method.name() + " "@ + r.target
}

impl Request {
    /// A `GET`.
    pub fn get(target: String) -> (r: Self)
        ensures
            r@ == bare_request(Method::Get, target@),
    {
        Request::without_body(Method::Get, target)
    }

    /// A `DELETE`.
    pub fn delete(target: String) -> (r: Self)
        ensures
            r@ == bare_request(Method::Delete, target@),
    {
        Request::without_body(Method::Delete, target)
    }

    /// A `POST` of `body` as [`XML_MEDIA_TYPE`].
    pub fn post_xml(target: String, body: Vec<u8>) -> (r: Self)
        ensures
            r@ == xml_post(target@, body@),
    {
        Request { method: Method::Post, target, content_type: Some(XML_MEDIA_TYPE), body }
    }

    /// A `POST` of `body` under some other media type.
    pub fn post_as(target: String, content_type: &'static str, body: Vec<u8>) -> (r: Self)
        ensures
            r@ == (RequestView { content_type: Some(content_type@), ..xml_post(target@, body@) }),
    {
        Request { method: Method::Post, target, content_type: Some(content_type), body }
    }

    fn without_body(method: Method, target: String) -> (r: Self)
        ensures
            r@ == bare_request(method, target@),
    {
        let r = Request { method, target, content_type: None, body: Vec::new() };
        assert(r@.body =~= seq![]);
        r
    }

    pub fn method(&self) -> (r: Method)
        ensures
            r == self@.method,
    {
        self.method
    }

    pub fn target(&self) -> (r: &str)
        ensures
            r@ == self@.target,
    {
        self.target.as_str()
    }

    pub fn content_type(&self) -> (r: Option<&'static str>)
        ensures
            match r {
                Some(t) => self@.content_type == Some(t@),
                None => self@.content_type is None,
            },
    {
        self.content_type
    }

    pub fn body(&self) -> (r: &[u8])
        ensures
            r@ == self@.body,
    {
        self.body.as_slice()
    }

    /// How this request is named in messages.
    pub fn to_text(&self) -> (r: String)
        ensures
            r@ == request_text(self@),
    {
        let mut out = self.method.as_str().to_owned();
        out.append(" ");
        out.append(self.target.as_str());
        out
    }
}

/// What came back: a status, the headers in arrival order, and whatever entity followed.
#[derive(Debug, Clone, PartialEq, Eq)]
pub struct Response {
    status: u16,
    headers: Vec<(String, String)>,
    body: Vec<u8>,
}

/// What a [`Response`] says.
pub struct ResponseView {
    pub status: u16,
    pub headers: Seq<(Seq<char>, Seq<char>)>,
    pub body: Seq<u8>,
}

/// What headers say.
pub open spec fn header_views(h: Seq<(String, String)>) -> Seq<(Seq<char>, Seq<char>)> {
    Seq::new(h.len(), |i: int| (h[i].0@, h[i].1@))
}

impl View for Response {
    type V = ResponseView;

    closed spec fn view(&self) -> ResponseView {
        ResponseView {
            status: self.status,
            headers: header_views(self.headers@),
            body: self.body@,
        }
    }
}

/// The value of the first header with a name, whatever the case of its letters.
pub open spec fn header_of(headers: Seq<(Seq<char>, Seq<char>)>, name: Seq<char>) -> Option<
    Seq<char>,
>
    decreases headers.len(),
{
    if headers.len() == 0 {
        None
    } else if same_ignoring_case(headers[0].0, name) {
        Some(headers[0].1)
    } else {
        header_of(headers.drop_first(), name)
    }
}

/// The value of the first header with a name, whatever the case of its letters.
pub fn find_header<'a>(headers: &'a Vec<(String, String)>, name: &str) -> (r: Option<&'a String>)
    ensures
        match r {
            Some(v) => header_of(header_views(headers@), name@) == Some(v@),
            None => header_of(header_views(headers@), name@) is None,
        },
{
    let ghost all = header_views(headers@);
    let mut i: usize = 0;
    assert(all.skip(0) =~= all);
    while i < headers.len()
        invariant
            i <= headers@.len(),
            all == header_views(headers@),
            header_of(all, name@) == header_of(all.skip(i as int), name@),
        decreases headers@.len() - i,
    {
        proof {
            assert(all.skip(i as int)[0] == all[i as int]);
            assert(all.skip(i as int).drop_first() =~= all.skip(i + 1));
        }
        if text::equal_ignoring_case(headers[i].0.as_str(), name) {
            return Some(&headers[i].1);
        }
        i = i + 1;
    }
    None
}

impl Response {
    pub fn new(status: u16, headers: Vec<(String, String)>, body: Vec<u8>) -> (r: Self)
        ensures
            r@ == (ResponseView { status, headers: header_views(headers@), body: body@ }),
    {
        Response { status, headers, body }
    }

    /// A response with no headers and no entity.
    pub fn status_only(status: u16) -> (r: Self)
        ensures
            r@ == (ResponseView { status, headers: seq![], body: seq![] }),
    {
        let r = Response::new(status, Vec::new(), Vec::new());
        assert(r@.headers =~= seq![]);
        assert(r@.body =~= seq![]);
        r
    }

    pub fn status(&self) -> (r: u16)
        ensures
            r == self@.status,
    {
        self.status
    }

    pub fn body(&self) -> (r: &[u8])
        ensures
            r@ == self@.body,
    {
        self.body.as_slice()
    }

    /// The value of the first header with a name, whatever the case of its letters.
    pub fn header(&self, name: &str) -> (r: Option<&str>)
        ensures
            match r {
                Some(v) => header_of(self@.headers, name@) == Some(v@),
                None => header_of(self@.headers, name@) is None,
            },
    {
        match find_header(&self.headers, name) {
            Some(v) => Some(v.as_str()),
            None => None,
        }
    }

    /// The URI of a resource the device just created.
    pub fn location(&self) -> (r: Option<&str>)
        ensures
            match r {
                Some(v) => header_of(self@.headers, "Location"@) == Some(v@),
                None => header_of(self@.headers, "Location"@) is None,
            },
    {
        self.header("Location")
    }

    /// Whether the status is one of success.
    pub fn is_success(&self) -> (r: bool)
        ensures
            r == (200 <= self@.status < 300),
    {
        self.status >= 200 && self.status < 300
    }
}

// -------------------------------------------------------------------------------- errors

/// Everything that can go wrong before a status comes back.
#[derive(Debug, Clone, PartialEq, Eq)]
pub enum TransportError {
    /// Nothing arrived in time.
    Timeout(Duration),
    /// The socket failed.
    Io(String),
    /// Something answered and it was not an HTTP response that can be read.
    Malformed(String),
}

/// What a [`TransportError`] says; the time is in nanoseconds.
pub enum TransportErrorView {
    Timeout(nat),
    Io(Seq<char>),
    Malformed(Seq<char>),
}

impl View for TransportError {
    type V = TransportErrorView;

    open spec fn view(&self) -> TransportErrorView {
        match *self {
            TransportError::Timeout(after) => TransportErrorView::Timeout(after@),
            TransportError::Io(error) => TransportErrorView::Io(error@),
            TransportError::Malformed(reason) => TransportErrorView::Malformed(reason@),
        }
    }
}

/// The sentence a transport error is reported with.
pub open spec fn transport_error_text(e: TransportErrorView) -> Seq<char> {
    match e {
        TransportErrorView::Timeout(after) => "no answer within "@ + span_text(after),
        TransportErrorView::Io(error) => "connection failed: "@ + error,
        TransportErrorView::Malformed(reason) => "unreadable answer: "@ + reason,
    }
}

impl TransportError {
    /// The sentence this error is reported with.
    pub fn to_text(&self) -> (r: String)
        ensures
            r@ == transport_error_text(self@),
    {
        match self {
            TransportError::Timeout(after) => {
                let mut out = "no answer within ".to_owned();
                out.append(after.to_text().as_str());
                out
            },
            TransportError::Io(error) => {
                let mut out = "connection failed: ".to_owned();
                out.append(error.as_str());
                out
            },
            TransportError::Malformed(reason) => {
                let mut out = "unreadable answer: ".to_owned();
                out.append(reason.as_str());
                out
            },
        }
    }
}

/// Why a device said no, in the terms the device itself distinguishes: a `415` means the
/// request never reached the document, a `400` that the document was read and disliked.
#[derive(Debug, Clone, Copy, PartialEq, Eq, Structural)]
pub enum Rejection {
    BadDocument,
    WrongMediaType,
    NotFound,
    /// Any other status.
    Status(u16),
}

impl Rejection {
    /// What a status says.
    pub open spec fn of_status(status: u16) -> Rejection {
        if status == BAD_REQUEST {
            Rejection::BadDocument
        } else if status == UNSUPPORTED_MEDIA_TYPE {
            Rejection::WrongMediaType
        } else if status == NOT_FOUND {
            Rejection::NotFound
        } else {
            Rejection::Status(status)
        }
    }

    /// The status behind a rejection.
    pub open spec fn number(self) -> u16 {
        match self {
            Rejection::BadDocument => BAD_REQUEST,
            Rejection::WrongMediaType => UNSUPPORTED_MEDIA_TYPE,
            Rejection::NotFound => NOT_FOUND,
            Rejection::Status(status) => status,
        }
    }

    /// The words for a rejection.
    pub open spec fn words(self) -> Seq<char> {
        match self {
            Rejection::BadDocument => "400: the device refused the document"@,
            Rejection::WrongMediaType => "415: the device refused the Content-Type"@,
            Rejection::NotFound => "404: no such resource on the device"@,
            Rejection::Status(status) => decimal(status as nat),
        }
    }

    /// Classifies a status.
    pub fn of(status: u16) -> (r: Rejection)
        ensures
            r == Rejection::of_status(status),
            r.number() == status,
    {
        if status == BAD_REQUEST {
            Rejection::BadDocument
        } else if status == UNSUPPORTED_MEDIA_TYPE {
            Rejection::WrongMediaType
        } else if status == NOT_FOUND {
            Rejection::NotFound
        } else {
            Rejection::Status(status)
        }
    }

    /// The status that produced this rejection.
    pub fn status(self) -> (r: u16)
        ensures
            r == self.number(),
    {
        match self {
            Rejection::BadDocument => BAD_REQUEST,
            Rejection::WrongMediaType => UNSUPPORTED_MEDIA_TYPE,
            Rejection::NotFound => NOT_FOUND,
            Rejection::Status(status) => status,
        }
    }

    /// The words for this rejection.
    pub fn to_text(self) -> (r: String)
        ensures
            r@ == self.words(),
    {
        match self {
            Rejection::BadDocument => "400: the device refused the document".to_owned(),
            Rejection::WrongMediaType => "415: the device refused the Content-Type".to_owned(),
            Rejection::NotFound => "404: no such resource on the device".to_owned(),
            Rejection::Status(status) => text::decimal_text(status as u64),
        }
    }
}

/// Why a walk-up exchange did not produce what was asked for.
#[derive(Debug, Clone, PartialEq, Eq)]
pub enum WalkupError {
    /// The device did not answer at all.
    Unreachable { device: Device, request: String, source: TransportError },
    /// The device answered, with a status that was not one of the expected ones.
    Refused { device: Device, request: String, rejection: Rejection },
    /// The device answered with a document that could not be read.
    Malformed { device: Device, request: String, reason: String },
    /// The collection already holds `limit` destinations, none of them this host's.
    Full { device: Device, limit: u32 },
}

/// What a [`WalkupError`] says.
pub enum WalkupErrorView {
    Unreachable { device: DeviceView, request: Seq<char>, source: TransportErrorView },
    Refused { device: DeviceView, request: Seq<char>, rejection: Rejection },
    Malformed { device: DeviceView, request: Seq<char>, reason: Seq<char> },
    Full { device: DeviceView, limit: u32 },
}

impl View for WalkupError {
    type V = WalkupErrorView;

    open spec fn view(&self) -> WalkupErrorView {
        match *self {
            WalkupError::Unreachable { device, request, source } => WalkupErrorView::Unreachable {
                device: device@,
                request: request@,
                source: source@,
            },
            WalkupError::Refused { device, request, rejection } => WalkupErrorView::Refused {
                device: device@,
                request: request@,
                rejection,
            },
            WalkupError::Malformed { device, request, reason } => WalkupErrorView::Malformed {
                device: device@,
                request: request@,
                reason: reason@,
            },
            WalkupError::Full { device, limit } => WalkupErrorView::Full { device: device@, limit },
        }
    }
}

/// The sentence an error is reported with.
pub open spec fn walkup_error_text(e: WalkupErrorView) -> Seq<char> {
    match e {
        WalkupErrorView::Unreachable { device, request, source } => authority_of(device)
            + " did not answer "@ + request + ": "@ + transport_error_text(source),
        WalkupErrorView::Refused { device, request, rejection } => authority_of(device)
            + " answered "@ + request + " with "@ + rejection.words(),
        WalkupErrorView::Malformed { device, request, reason } => authority_of(device)
            + " answered "@ + request + " unreadably: "@ + reason,
        WalkupErrorView::Full { device, limit } => authority_of(device) + " already holds the "@
            + decimal(limit as nat)
            + " Scan to Computer destinations it allows, and none of them is this host; remove one at the printer, under Scan to Computer, and pair again"@,
    }
}

/// What scanbus reports for an error: silence is a device that is not reachable, anything
/// else is said in words.
pub open spec fn reported(e: WalkupErrorView, scanner: Seq<char>) -> BackendErrorView {
    if e is Unreachable {
        BackendErrorView::NotReachable { scanner, detail: walkup_error_text(e) }
    } else {
        BackendErrorView::Other("scanner "@ + scanner + ": "@ + walkup_error_text(e))
    }
}

impl WalkupError {
    /// Whether the device answered and said no.
    pub fn is_refusal(&self) -> (r: bool)
        ensures
            r == (self@ is Refused),
    {
        match self {
            WalkupError::Refused { .. } => true,
            _ => false,
        }
    }

    /// The sentence this error is reported with.
    pub fn to_text(&self) -> (r: String)
        ensures
            r@ == walkup_error_text(self@),
    {
        match self {
            WalkupError::Unreachable { device, request, source } => {
                let mut out = device.authority();
                out.append(" did not answer ");
                out.append(request.as_str());
                out.append(": ");
                out.append(source.to_text().as_str());
                out
            },
            WalkupError::Refused { device, request, rejection } => {
                let mut out = device.authority();
                out.append(" answered ");
                out.append(request.as_str());
                out.append(" with ");
                out.append(rejection.to_text().as_str());
                out
            },
            WalkupError::Malformed { device, request, reason } => {
                let mut out = device.authority();
                out.append(" answered ");
                out.append(request.as_str());
                out.append(" unreadably: ");
                out.append(reason.as_str());
                out
            },
            WalkupError::Full { device, limit } => {
                let mut out = device.authority();
                out.append(" already holds the ");
                out.append(text::decimal_text(*limit as u64).as_str());
                out.append(
                    " Scan to Computer destinations it allows, and none of them is this host; remove one at the printer, under Scan to Computer, and pair again",
                );
                out
            },
        }
    }

    /// The scanbus error to report for this failure.
    pub fn into_backend_error(self, scanner: &ScannerId) -> (r: BackendError)
        ensures
            r@ == reported(self@, scanner@),
    {
        let words = self.to_text();
        match self {
            WalkupError::Unreachable { .. } => BackendError::NotReachable {
                scanner: scanner.clone(),
                detail: words,
            },
            _ => {
                let mut out = "scanner ".to_owned();
                out.append(scanner.as_str());
                out.append(": ");
                out.append(words.as_str());
                BackendError::Other(out)
            },
        }
    }
}

// ----------------------------------------------------------------------------- documents

/// What a capability document says about the collection.
#[derive(Debug, Clone, Copy, PartialEq, Eq, Structural)]
pub struct Limits {
    max_network_destinations: Option<u32>,
}

impl View for Limits {
    type V = Option<u32>;

    closed spec fn view(&self) -> Option<u32> {
        self.max_network_destinations
    }
}

impl Default for Limits {
    fn default() -> (r: Self)
        ensures
            r@ is None,
    {
        Limits { max_network_destinations: None }
    }
}

impl Limits {
    /// How many destinations the collection holds, when the device said.
    pub fn max_network_destinations(&self) -> (r: Option<u32>)
        ensures
            r == self@,
    {
        self.max_network_destinations
    }

    /// The limits of a device that published one.
    pub fn holding(max_network_destinations: u32) -> (r: Self)
        ensures
            r@ == Some(max_network_destinations),
    {
        Limits { max_network_destinations: Some(max_network_destinations) }
    }
}

/// One entry of a device's destination collection.
#[derive(Debug, PartialEq, Eq)]
pub struct Destination {
    uri: String,
    hostname: String,
}

/// What a [`Destination`] says.
pub struct DestinationView {
    pub uri: Seq<char>,
    pub hostname: Seq<char>,
}

impl View for Destination {
    type V = DestinationView;

    closed spec fn view(&self) -> DestinationView {
        DestinationView { uri: self.uri@, hostname: self.hostname@ }
    }
}

impl Clone for Destination {
    fn clone(&self) -> (r: Self)
        ensures
            r@ == self@,
    {
        Destination { uri: self.uri.clone(), hostname: self.hostname.clone() }
    }
}

/// What several destinations say.
pub open spec fn destination_views(v: Seq<Destination>) -> Seq<DestinationView> {
    v.map_values(|d: Destination| d@)
}

/// Whether an entry is one that `name` registered.
pub open spec fn owned_by(d: DestinationView, name: Seq<char>) -> bool {
    d.hostname.len() > 0 && same_ignoring_case(d.hostname, name)
}

impl Destination {
    /// The resource path the device gave this entry.
    pub fn uri(&self) -> (r: &str)
        ensures
            r@ == self@.uri,
    {
        self.uri.as_str()
    }

    /// The host that registered the entry; empty if it published none.
    pub fn hostname(&self) -> (r: &str)
        ensures
            r@ == self@.hostname,
    {
        self.hostname.as_str()
    }

    /// Whether this is an entry `name` registered, whatever the case of its letters. An
    /// entry without a hostname is nobody's.
    pub fn registered_by(&self, name: &str) -> (r: bool)
        ensures
            r == owned_by(self@, name@),
    {
        !self.hostname.as_str().is_empty() && text::equal_ignoring_case(
            self.hostname.as_str(),
            name,
        )
    }

    /// How this entry is named in messages.
    pub fn to_text(&self) -> (r: String)
        ensures
            r@ == self@.hostname + " at "@ + self@.uri,
    {
        let mut out = self.hostname.clone();
        out.append(" at ");
        out.append(self.uri.as_str());
        out
    }
}

/// A document the device sent that could not be read.
#[derive(Debug, Clone, PartialEq, Eq)]
pub struct MalformedDocument(String);

impl View for MalformedDocument {
    type V = Seq<char>;

    closed spec fn view(&self) -> Seq<char> {
        self.0@
    }
}

impl MalformedDocument {
    /// What is wrong with it.
    pub fn reason(&self) -> (r: &str)
        ensures
            r@ == self@,
    {
        self.0.as_str()
    }

    /// What is wrong with it.
    pub fn to_text(&self) -> (r: String)
        ensures
            r@ == self@,
    {
        self.0.clone()
    }
}

/// How far a capability document has been read: whether its limit is open, the text in it
/// so far, and the limit once it was closed.
pub struct CapsState {
    pub open: bool,
    pub value: Seq<char>,
    pub limit: Option<u32>,
}

/// The name of the element that holds the limit.
pub open spec fn limit_name() -> Seq<u8> {
    encode_utf8("MaxNetworkDestinations"@)
}

/// One event of a capability document.
pub open spec fn caps_step(s: CapsState, event: XmlEventView) -> Result<CapsState, Seq<char>> {
    match event {
        XmlEventView::Malformed(e) => Err(e),
        XmlEventView::Start(name) => Ok(
            CapsState { open: name == limit_name(), value: seq![], limit: s.limit },
        ),
        XmlEventView::Text(content) => if s.open {
            match content {
                Ok(run) => Ok(CapsState { value: s.value + run, ..s }),
                Err(e) => Err(e),
            }
        } else {
            Ok(s)
        },
        XmlEventView::End(name) => if name == limit_name() {
            match parse_unsigned(trim(s.value), u32::MAX as nat) {
                Some(n) => Ok(CapsState { open: false, limit: Some(n as u32), ..s }),
                None => Err(
                    "MaxNetworkDestinations is "@ + quoted(trim(s.value))
                        + ", which is not a count of destinations"@,
                ),
            }
        } else {
            Ok(CapsState { open: false, ..s })
        },
        _ => Ok(s),
    }
}

/// The limit that the rest of a capability document leaves.
pub open spec fn caps_from(s: CapsState, events: Seq<XmlEventView>) -> Result<
    Option<u32>,
    Seq<char>,
>
    decreases events.len(),
{
    if events.len() == 0 {
        Ok(s.limit)
    } else {
        match caps_step(s, events[0]) {
            Err(e) => Err(e),
            Ok(next) => caps_from(next, events.drop_first()),
        }
    }
}

/// The limit that the events of a capability document say.
pub open spec fn capabilities_of(events: Seq<XmlEventView>) -> Result<Option<u32>, Seq<char>> {
    caps_from(CapsState { open: false, value: seq![], limit: None }, events)
}

struct Caps {
    open: bool,
    value: String,
    limit: Option<u32>,
}

impl Caps {
    spec fn state(&self) -> CapsState {
        CapsState { open: self.open, value: self.value@, limit: self.limit }
    }

    fn new() -> (r: Self)
        ensures
            r.state() == (CapsState { open: false, value: seq![], limit: None }),
    {
        Caps { open: false, value: String::new(), limit: None }
    }

    fn step(&mut self, event: &XmlEvent) -> (r: Result<(), MalformedDocument>)
        ensures
            match caps_step(old(self).state(), event@) {
                Ok(next) => r is Ok && final(self).state() == next,
                Err(e) => r matches Err(x) && x@ == e,
            },
    {
        match event {
            XmlEvent::Malformed(error) => {
                return Err(MalformedDocument(error.clone()));
            },
            XmlEvent::Start(name) => {
                self.open = text::same_bytes(name.as_slice(), "MaxNetworkDestinations".as_bytes());
                self.value = String::new();
            },
            XmlEvent::Text(content) => {
                if self.open {
                    match content {
                        Ok(run) => {
                            self.value.append(run.as_str());
                        },
                        Err(e) => {
                            return Err(MalformedDocument(e.clone()));
                        },
                    }
                }
            },
            XmlEvent::End(name) => {
                if text::same_bytes(name.as_slice(), "MaxNetworkDestinations".as_bytes()) {
                    let trimmed = text::trim_text(self.value.as_str());
                    match text::parse_number(trimmed.as_str(), 0xffff_ffff) {
                        Some(n) => {
                            self.limit = Some(n as u32);
                        },
                        None => {
                            let mut out = "MaxNetworkDestinations is ".to_owned();
                            out.append(text::quote(trimmed.as_str()).as_str());
                            out.append(", which is not a count of destinations");
                            return Err(MalformedDocument(out));
                        },
                    }
                }
                self.open = false;
            },
            _ => {},
        }
        Ok(())
    }
}

/// What several events say.
pub open spec fn event_views(events: Seq<XmlEvent>) -> Seq<XmlEventView> {
    events.map_values(|e: XmlEvent| e@)
}

/// The [`Limits`] that the events of a capability document say.
pub fn capabilities_from_events(events: &[XmlEvent]) -> (r: Result<Limits, MalformedDocument>)
    ensures
        match capabilities_of(event_views(events@)) {
            Ok(limit) => r matches Ok(x) && x@ == limit,
            Err(e) => r matches Err(x) && x@ == e,
        },
{
    let ghost all = event_views(events@);
    let mut caps = Caps::new();
    let mut i: usize = 0;
    assert(all.skip(0) =~= all);
    while i < events.len()
        invariant
            i <= events@.len(),
            all == event_views(events@),
            capabilities_of(all) == caps_from(caps.state(), all.skip(i as int)),
        decreases events@.len() - i,
    {
        proof {
            assert(all.skip(i as int)[0] == events@[i as int]@);
            assert(all.skip(i as int).drop_first() =~= all.skip(i + 1));
        }
        match caps.step(&events[i]) {
            Ok(()) => {},
            Err(e) => {
                return Err(e);
            },
        }
        i = i + 1;
    }
    Ok(Limits { max_network_destinations: caps.limit })
}

/// The [`Limits`] of a capability document.
///
/// Only the limit is looked for, and its absence is not an error. A value that is present
/// and not a number is. Elements are matched on their local name.
pub fn parse_capabilities(document: &[u8]) -> (r: Result<Limits, MalformedDocument>)
    ensures
        match capabilities_of(xml_events(document@)) {
            Ok(limit) => r matches Ok(x) && x@ == limit,
            Err(e) => r matches Err(x) && x@ == e,
        },
{
    let mut reader = open_document(document);
    let mut caps = Caps::new();
    let mut more = true;
    while more
        invariant
            capabilities_of(xml_events(document@)) == caps_from(
                caps.state(),
                pending_events(reader),
            ),
            !more ==> pending_events(reader).len() == 0,
        decreases pending_events(reader).len() + if more {
            1int
        } else {
            0int
        },
    {
        let event = next_event(&mut reader);
        match event {
            XmlEvent::Eof => {
                more = false;
            },
            _ => match caps.step(&event) {
                Ok(()) => {},
                Err(e) => {
                    return Err(e);
                },
            },
        }
    }
    Ok(Limits { max_network_destinations: caps.limit })
}

/// The two elements worth collecting from inside one entry.
#[derive(Debug, Clone, Copy, PartialEq, Eq, Structural)]
pub enum Field {
    Uri,
    Hostname,
}

/// How far a collection has been read: the texts of the entry that is open, which of the
/// two its text goes to, and the entries that were closed.
pub struct DestState {
    pub entry: Option<(Option<Seq<char>>, Option<Seq<char>>)>,
    pub field: Option<Field>,
    pub out: Seq<DestinationView>,
}

/// The name of an entry's element.
pub open spec fn entry_name() -> Seq<u8> {
    encode_utf8("WalkupScanToCompDestination"@)
}

/// A text with a run behind it.
pub open spec fn grown(value: Option<Seq<char>>, run: Seq<char>) -> Option<Seq<char>> {
    match value {
        Some(s) => Some(s + run),
        None => Some(run),
    }
}

/// An entry with a run of text behind one of its fields.
pub open spec fn with_run(
    entry: (Option<Seq<char>>, Option<Seq<char>>),
    field: Field,
    run: Seq<char>,
) -> (Option<Seq<char>>, Option<Seq<char>>) {
    match field {
        Field::Uri => (grown(entry.0, run), entry.1),
        Field::Hostname => (entry.0, grown(entry.1, run)),
    }
}

/// The text that a reference stands for.
pub open spec fn reference_text(
    character: Result<Option<char>, Seq<char>>,
    name: Result<Seq<char>, Seq<char>>,
) -> Result<Seq<char>, Seq<char>> {
    match character {
        Err(e) => Err(e),
        Ok(Some(c)) => Ok(seq![c]),
        Ok(None) => match name {
            Err(e) => Err(e),
            Ok(n) => match predefined(n) {
                Some(s) => Ok(s),
                None => Err("unknown entity &"@ + n + ";"@),
            },
        },
    }
}

/// The text in an option, trimmed.
pub open spec fn trimmed_or_empty(value: Option<Seq<char>>) -> Seq<char> {
    match value {
        Some(s) => trim(s),
        None => seq![],
    }
}

/// A collection with the entry that is open closed; one without a URI is dropped.
pub open spec fn entry_closed(s: DestState) -> DestState {
    match s.entry {
        None => DestState { field: None, ..s },
        Some((uri, hostname)) => DestState {
            entry: None,
            field: None,
            out: if trimmed_or_empty(uri).len() > 0 {
                s.out.push(
                    DestinationView {
                        uri: trimmed_or_empty(uri),
                        hostname: trimmed_or_empty(hostname),
                    },
                )
            } else {
                s.out
            },
        },
    }
}

/// One event of a collection.
pub open spec fn dest_step(s: DestState, event: XmlEventView) -> Result<DestState, Seq<char>> {
    match event {
        XmlEventView::Malformed(e) => Err(e),
        XmlEventView::Start(name) => Ok(
            if name == entry_name() {
                DestState { entry: Some((None, None)), ..s }
            } else if name == encode_utf8("ResourceURI"@) && s.entry is Some {
                DestState { field: Some(Field::Uri), ..s }
            } else if name == encode_utf8("Hostname"@) && s.entry is Some {
                DestState { field: Some(Field::Hostname), ..s }
            } else {
                DestState { field: None, ..s }
            },
        ),
        XmlEventView::Text(content) => match (s.entry, s.field) {
            (Some(entry), Some(field)) => match content {
                Ok(run) => Ok(DestState { entry: Some(with_run(entry, field, run)), ..s }),
                Err(e) => Err(e),
            },
            _ => Ok(s),
        },
        XmlEventView::Reference { character, name } => match (s.entry, s.field) {
            (Some(entry), Some(field)) => match reference_text(character, name) {
                Ok(run) => Ok(DestState { entry: Some(with_run(entry, field, run)), ..s }),
                Err(e) => Err(e),
            },
            _ => Ok(s),
        },
        XmlEventView::End(name) => Ok(
            if name == entry_name() {
                entry_closed(s)
            } else {
                DestState { field: None, ..s }
            },
        ),
        _ => Ok(s),
    }
}

/// The entries that the rest of a collection leaves.
pub open spec fn dest_from(s: DestState, events: Seq<XmlEventView>) -> Result<
    Seq<DestinationView>,
    Seq<char>,
>
    decreases events.len(),
{
    if events.len() == 0 {
        Ok(s.out)
    } else {
        match dest_step(s, events[0]) {
            Err(e) => Err(e),
            Ok(next) => dest_from(next, events.drop_first()),
        }
    }
}

/// The entries that the events of a collection say.
pub open spec fn destinations_of(events: Seq<XmlEventView>) -> Result<
    Seq<DestinationView>,
    Seq<char>,
> {
    dest_from(DestState { entry: None, field: None, out: seq![] }, events)
}

struct Collector {
    entry: Option<(Option<String>, Option<String>)>,
    field: Option<Field>,
    out: Vec<Destination>,
}

spec fn opt_text(o: Option<String>) -> Option<Seq<char>> {
    match o {
        Some(s) => Some(s@),
        None => None,
    }
}

fn grow(value: &Option<String>, run: &str) -> (r: Option<String>)
    ensures
        opt_text(r) == grown(opt_text(*value), run@),
{
    match value {
        Some(s) => {
            let mut out = s.clone();
            out.append(run);
            Some(out)
        },
        None => Some(run.to_owned()),
    }
}

fn trim_or_empty(value: &Option<String>) -> (r: String)
    ensures
        r@ == trimmed_or_empty(opt_text(*value)),
{
    match value {
        Some(s) => text::trim_text(s.as_str()),
        None => String::new(),
    }
}

fn resolve(character: &Result<Option<char>, String>, name: &Result<String, String>) -> (r: Result<
    String,
    MalformedDocument,
>)
    ensures
        ({
            let c = match *character {
                Ok(c) => Ok::<Option<char>, Seq<char>>(c),
                Err(e) => Err(e@),
            };
            match reference_text(c, text_or_refusal(*name)) {
                Ok(s) => r matches Ok(x) && x@ == s,
                Err(e) => r matches Err(x) && x@ == e,
            }
        }),
{
    match character {
        Err(e) => Err(MalformedDocument(e.clone())),
        Ok(Some(c)) => {
            let mut out = String::new();
            out.push(*c);
            assert(out@ =~= seq![*c]);
            Ok(out)
        },
        Ok(None) => match name {
            Err(e) => Err(MalformedDocument(e.clone())),
            Ok(n) => match resolve_entity(n.as_str()) {
                Some(s) => Ok(s.to_owned()),
                None => {
                    let mut out = "unknown entity &".to_owned();
                    out.append(n.as_str());
                    out.append(";");
                    Err(MalformedDocument(out))
                },
            },
        },
    }
}

impl Collector {
    spec fn state(&self) -> DestState {
        DestState {
            entry: match self.entry {
                Some((uri, hostname)) => Some((opt_text(uri), opt_text(hostname))),
                None => None,
            },
            field: self.field,
            out: destination_views(self.out@),
        }
    }

    fn new() -> (r: Self)
        ensures
            r.state() == (DestState { entry: None, field: None, out: seq![] }),
    {
        let r = Collector { entry: None, field: None, out: Vec::new() };
        assert(r.state().out =~= seq![]);
        r
    }

    fn add_run(&mut self, run: &str)
        ensures
            match (old(self).state().entry, old(self).state().field) {
                (Some(entry), Some(field)) => final(self).state() == (DestState {
                    entry: Some(with_run(entry, field, run@)),
                    ..old(self).state()
                }),
                _ => final(self).state() == old(self).state(),
            },
    {
        let field = self.field;
        let grown_entry = match (&self.entry, field) {
            (Some((uri, hostname)), Some(Field::Uri)) => Some((grow(uri, run), hostname.clone())),
            (Some((uri, hostname)), Some(Field::Hostname)) => Some(
                (uri.clone(), grow(hostname, run)),
            ),
            _ => {
                return ;
            },
        };
        self.entry = grown_entry;
    }

    fn close(&mut self)
        ensures
            final(self).state() == entry_closed(old(self).state()),
    {
        let ghost before = self.state();
        match &self.entry {
            None => {},
            Some((uri, hostname)) => {
                let path = trim_or_empty(uri);
                let host = trim_or_empty(hostname);
                if !path.as_str().is_empty() {
                    let ghost out = self.out@;
                    let d = Destination { uri: path, hostname: host };
                    let ghost dv = d@;
                    self.out.push(d);
                    assert(destination_views(self.out@) =~= destination_views(out).push(dv));
                }
            },
        }
        self.entry = None;
        self.field = None;
    }

    fn step(&mut self, event: &XmlEvent) -> (r: Result<(), MalformedDocument>)
        ensures
            match dest_step(old(self).state(), event@) {
                Ok(next) => r is Ok && final(self).state() == next,
                Err(e) => r matches Err(x) && x@ == e,
            },
    {
        match event {
            XmlEvent::Malformed(error) => {
                return Err(MalformedDocument(error.clone()));
            },
            XmlEvent::Start(name) => {
                let bytes = name.as_slice();
                if text::same_bytes(bytes, "WalkupScanToCompDestination".as_bytes()) {
                    self.entry = Some((None, None));
                } else if self.entry.is_some() && text::same_bytes(
                    bytes,
                    "ResourceURI".as_bytes(),
                ) {
                    self.field = Some(Field::Uri);
                } else if self.entry.is_some() && text::same_bytes(bytes, "Hostname".as_bytes()) {
                    self.field = Some(Field::Hostname);
                } else {
                    self.field = None;
                }
            },
            XmlEvent::Text(content) => {
                if self.entry.is_some() && self.field.is_some() {
                    match content {
                        Ok(run) => self.add_run(run.as_str()),
                        Err(e) => {
                            return Err(MalformedDocument(e.clone()));
                        },
                    }
                }
            },
            XmlEvent::Reference { character, name } => {
                if self.entry.is_some() && self.field.is_some() {
                    match resolve(character, name) {
                        Ok(run) => self.add_run(run.as_str()),
                        Err(e) => {
                            return Err(e);
                        },
                    }
                }
            },
            XmlEvent::End(name) => {
                if text::same_bytes(name.as_slice(), "WalkupScanToCompDestination".as_bytes()) {
                    self.close();
                } else {
                    self.field = None;
                }
            },
            _ => {},
        }
        Ok(())
    }
}

/// The entries that the events of a collection say.
pub fn destinations_from_events(events: &[XmlEvent]) -> (r: Result<
    Vec<Destination>,
    MalformedDocument,
>)
    ensures
        match destinations_of(event_views(events@)) {
            Ok(out) => r matches Ok(x) && destination_views(x@) == out,
            Err(e) => r matches Err(x) && x@ == e,
        },
{
    let ghost all = event_views(events@);
    let mut collector = Collector::new();
    let mut i: usize = 0;
    assert(all.skip(0) =~= all);
    while i < events.len()
        invariant
            i <= events@.len(),
            all == event_views(events@),
            destinations_of(all) == dest_from(collector.state(), all.skip(i as int)),
        decreases events@.len() - i,
    {
        proof {
            assert(all.skip(i as int)[0] == events@[i as int]@);
            assert(all.skip(i as int).drop_first() =~= all.skip(i + 1));
        }
        match collector.step(&events[i]) {
            Ok(()) => {},
            Err(e) => {
                return Err(e);
            },
        }
        i = i + 1;
    }
    Ok(collector.out)
}

/// The entries of a collection, each paired with the host that registered it.
///
/// Elements are matched on their local name, exactly. An entry without a URI, or with a
/// blank one, is dropped: it could not be addressed.
pub fn parse_destinations(document: &[u8]) -> (r: Result<Vec<Destination>, MalformedDocument>)
    ensures
        match destinations_of(xml_events(document@)) {
            Ok(out) => r matches Ok(x) && destination_views(x@) == out,
            Err(e) => r matches Err(x) && x@ == e,
        },
{
    let mut reader = open_document(document);
    let mut collector = Collector::new();
    let mut more = true;
    while more
        invariant
            destinations_of(xml_events(document@)) == dest_from(
                collector.state(),
                pending_events(reader),
            ),
            !more ==> pending_events(reader).len() == 0,
        decreases pending_events(reader).len() + if more {
            1int
        } else {
            0int
        },
    {
        let event = next_event(&mut reader);
        match event {
            XmlEvent::Eof => {
                more = false;
            },
            _ => match collector.step(&event) {
                Ok(()) => {},
                Err(e) => {
                    return Err(e);
                },
            },
        }
    }
    Ok(collector.out)
}

// ------------------------------------------------------------------------ the document

/// One character of element content, with the three that can end an element early escaped.
pub open spec fn escape_char(c: char) -> Seq<char> {
    if c == '&' {
        "&amp;"@
    } else if c == '<' {
        "&lt;"@
    } else if c == '>' {
        "&gt;"@
    } else {
        seq![c]
    }
}

/// Element content, with the three characters that can end an element early escaped.
pub open spec fn escaped(s: Seq<char>) -> Seq<char>
    decreases s.len(),
{
    if s.len() == 0 {
        seq![]
    } else {
        escape_char(s[0]) + escaped(s.drop_first())
    }
}

/// The registration document for a name.
pub open spec fn document_text(name: Seq<char>) -> Seq<char> {
    "<?xml version=\"1.0\" encoding=\"UTF-8\"?><WalkupScanToComp xmlns=\"http://www.hp.com/schemas/imaging/con/ledm/walkupscan/2010/09/28\" xmlns:xsi=\"http://www.w3.org/2001/XMLSchema-instance\" xsi:schemaLocation=\"http://www.hp.com/schemas/imaging/con/ledm/walkupscan/2010/09/28 WalkupScan.xsd\"><Hostname xmlns=\"http://www.hp.com/schemas/imaging/con/dictionaries/2009/04/06\">"@
        + escaped(name)
        + "</Hostname><Name xmlns=\"http://www.hp.com/schemas/imaging/con/dictionaries/1.0/\">"@
        + escaped(name) + "</Name><LinkType>Network</LinkType></WalkupScanToComp>"@
}

/// Element content, with the three characters that can end an element early escaped.
pub fn escape_text(text: &str) -> (r: String)
    ensures
        r@ == escaped(text@),
{
    let v = text::chars(text);
    let mut out = String::new();
    let mut i: usize = 0;
    assert(v@.skip(0) =~= v@);
    assert(out@ + escaped(v@.skip(0)) =~= escaped(text@));
    while i < v.len()
        invariant
            v@ == text@,
            i <= v@.len(),
            out@ + escaped(v@.skip(i as int)) =~= escaped(text@),
        decreases v@.len() - i,
    {
        let c = v[i];
        let ghost before = out@;
        proof {
            assert(v@.skip(i as int)[0] == c);
            assert(v@.skip(i as int).drop_first() =~= v@.skip(i + 1));
        }
        if c == '&' {
            out.append("&amp;");
        } else if c == '<' {
            out.append("&lt;");
        } else if c == '>' {
            out.append("&gt;");
        } else {
            out.push(c);
        }
        assert(out@ =~= before + escape_char(c));
        i = i + 1;
    }
    assert(escaped(v@.skip(i as int)) =~= seq![]);
    out
}

/// The registration document for `name`: the one spelling the device accepts, with the name
/// in it twice.
pub fn destination_document(name: &str) -> (r: Vec<u8>)
    ensures
        r@ == encode_utf8(document_text(name@)),
{
    let name = escape_text(name);
    let mut out =
        "<?xml version=\"1.0\" encoding=\"UTF-8\"?><WalkupScanToComp xmlns=\"http://www.hp.com/schemas/imaging/con/ledm/walkupscan/2010/09/28\" xmlns:xsi=\"http://www.w3.org/2001/XMLSchema-instance\" xsi:schemaLocation=\"http://www.hp.com/schemas/imaging/con/ledm/walkupscan/2010/09/28 WalkupScan.xsd\"><Hostname xmlns=\"http://www.hp.com/schemas/imaging/con/dictionaries/2009/04/06\">".to_owned();
    out.append(name.as_str());
    out.append(
        "</Hostname><Name xmlns=\"http://www.hp.com/schemas/imaging/con/dictionaries/1.0/\">",
    );
    out.append(name.as_str());
    out.append("</Name><LinkType>Network</LinkType></WalkupScanToComp>");
    slice_to_vec(out.as_str().as_bytes())
}

/// Element content with the three escapes undone.
pub open spec fn unescaped(s: Seq<char>) -> Seq<char>
    decreases s.len(),
{
    if s.len() == 0 {
        seq![]
    } else if text::begins(s, "&amp;"@) && s.len() >= 5 {
        seq!['&'] + unescaped(s.skip(5))
    } else if text::begins(s, "&lt;"@) && s.len() >= 4 {
        seq!['<'] + unescaped(s.skip(4))
    } else if text::begins(s, "&gt;"@) && s.len() >= 4 {
        seq!['>'] + unescaped(s.skip(4))
    } else {
        seq![s[0]] + unescaped(s.drop_first())
    }
}

/// Whatever a name holds, its escaped form ends no element, and says the name.
pub proof fn law_no_name_ends_an_element(name: Seq<char>)
    ensures
        !escaped(name).contains('<'),
        !escaped(name).contains('>'),
        unescaped(escaped(name)) == name,
    decreases name.len(),
{
    reveal_strlit("&amp;");
    reveal_strlit("&lt;");
    reveal_strlit("&gt;");
    if name.len() == 0 {
        assert(name =~= seq![]);
    } else {
        let rest = name.drop_first();
        law_no_name_ends_an_element(rest);
        let head = escape_char(name[0]);
        let tail = escaped(rest);
        let all = escaped(name);
        assert("&amp;"@.len() == 5 && "&lt;"@.len() == 4 && "&gt;"@.len() == 4);
        assert forall|i: int| 0 <= i < head.len() implies head[i] != '<' && head[i] != '>' by {
            assert(i == 0 || i == 1 || i == 2 || i == 3 || i == 4);
        }
        assert forall|i: int| 0 <= i < all.len() implies all[i] != '<' && all[i] != '>' by {
            if i < head.len() {
                assert(all[i] == head[i]);
            } else {
                assert(all[i] == tail[i - head.len()]);
                assert(tail.contains(tail[i - head.len()]));
            }
        }
        let c = name[0];
        assert(seq![c] + rest =~= name);
        if c == '&' {
            assert(all.take(5) =~= "&amp;"@);
            assert(all.skip(5) =~= tail);
        } else if c == '<' {
            assert(all.take(4) =~= "&lt;"@);
            assert(all.skip(4) =~= tail);
            assert(!text::begins(all, "&amp;"@)) by {
                if text::begins(all, "&amp;"@) {
                    assert(all.take(5)[1] == 'l');
                    assert("&amp;"@[1] == 'a');
                }
            }
        } else if c == '>' {
            assert(all.take(4) =~= "&gt;"@);
            assert(all.skip(4) =~= tail);
            assert(!text::begins(all, "&amp;"@)) by {
                if text::begins(all, "&amp;"@) {
                    assert(all.take(5)[1] == 'g');
                    assert("&amp;"@[1] == 'a');
                }
            }
            assert(!text::begins(all, "&lt;"@)) by {
                if text::begins(all, "&lt;"@) {
                    assert(all.take(4)[1] == 'g');
                    assert("&lt;"@[1] == 'l');
                }
            }
        } else {
            assert(all[0] == c);
            assert(all.drop_first() =~= tail);
            assert(!text::begins(all, "&amp;"@)) by {
                if text::begins(all, "&amp;"@) {
                    assert(all.take(5)[0] == c);
                }
            }
            assert(!text::begins(all, "&lt;"@)) by {
                if text::begins(all, "&lt;"@) {
                    assert(all.take(4)[0] == c);
                }
            }
            assert(!text::begins(all, "&gt;"@)) by {
                if text::begins(all, "&gt;"@) {
                    assert(all.take(4)[0] == c);
                }
            }
        }
    }
}

// --------------------------------------------------------------------------- panel name

/// The name a host appears under: its hostname without the domain.
pub open spec fn panel_name_of(hostname: Seq<char>) -> Seq<char> {
    let short = trim(before(hostname, '.'));
    if short.len() == 0 {
        FALLBACK_PANEL_NAME@
    } else {
        short
    }
}

/// The name a host appears under: its hostname without the domain.
pub fn panel_name_from(hostname: &str) -> (r: String)
    ensures
        r@ == panel_name_of(hostname@),
{
    let v = text::chars(hostname);
    let end: usize = text::position(v.as_slice(), '.');
    let head = vstd::slice::slice_subrange(v.as_slice(), 0, end);
    assert(head@ =~= v@.take(end as int));
    let short = text::trimmed(head);
    if short.len() == 0 {
        FALLBACK_PANEL_NAME.to_owned()
    } else {
        text::from_chars(short)
    }
}

/// The name this host appears under, given what the hostname files say.
pub fn panel_name(files: &[Option<String>]) -> (r: String)
    ensures
        r@ == panel_name_of(
            match first_hostname(file_views(files@)) {
                Some(s) => s,
                None => seq![],
            },
        ),
{
    match read_hostname(files) {
        Some(name) => panel_name_from(name.as_str()),
        None => {
            let empty = String::new();
            assert(empty@ =~= seq![]);
            panel_name_from(empty.as_str())
        },
    }
}

// ------------------------------------------------------------------------- registering

/// The walk-up resources of one device.
#[derive(Debug, Clone, PartialEq, Eq)]
pub struct Walkup {
    device: Device,
}

impl View for Walkup {
    type V = DeviceView;

    closed spec fn view(&self) -> DeviceView {
        self.device@
    }
}

/// What came back of a request.
pub type Answer = Result<ResponseView, TransportErrorView>;

/// What came back of a request.
pub open spec fn answer_view(a: Result<Response, TransportError>) -> Answer {
    match a {
        Ok(r) => Ok(r@),
        Err(e) => Err(e@),
    }
}

/// What an answer says when any status will do.
pub open spec fn exchanged(device: DeviceView, request: RequestView, answer: Answer) -> Result<
    ResponseView,
    WalkupErrorView,
> {
    match answer {
        Ok(r) => Ok(r),
        Err(source) => Err(
            WalkupErrorView::Unreachable { device, request: request_text(request), source },
        ),
    }
}

/// What an answer says when only some statuses will do.
pub open spec fn expected_of(
    device: DeviceView,
    request: RequestView,
    expected: Seq<u16>,
    answer: Answer,
) -> Result<ResponseView, WalkupErrorView> {
    match exchanged(device, request, answer) {
        Err(e) => Err(e),
        Ok(r) => if expected.contains(r.status) {
            Ok(r)
        } else {
            Err(
                WalkupErrorView::Refused {
                    device,
                    request: request_text(request),
                    rejection: Rejection::of_status(r.status),
                },
            )
        },
    }
}

/// The request for the capability document.
pub open spec fn caps_request() -> RequestView {
    bare_request(Method::Get, CAPS_PATH@)
}

/// The request for the collection.
pub open spec fn list_request() -> RequestView {
    bare_request(Method::Get, DESTINATIONS_PATH@)
}

/// The request that deletes an entry.
pub open spec fn delete_request(uri: Seq<char>) -> RequestView {
    bare_request(Method::Delete, uri)
}

/// The request that registers a name.
pub open spec fn post_request(name: Seq<char>) -> RequestView {
    xml_post(DESTINATIONS_PATH@, encode_utf8(document_text(name)))
}

/// What an answer to the request for the capability document says; nothing where the device
/// serves none.
pub open spec fn limits_of(device: DeviceView, answer: Answer) -> Result<
    Option<Option<u32>>,
    WalkupErrorView,
> {
    match expected_of(device, caps_request(), seq![OK, NOT_FOUND], answer) {
        Err(e) => Err(e),
        Ok(r) => if r.status == NOT_FOUND {
            Ok(None)
        } else {
            match capabilities_of(xml_events(r.body)) {
                Ok(limit) => Ok(Some(limit)),
                Err(reason) => Err(
                    WalkupErrorView::Malformed {
                        device,
                        request: request_text(caps_request()),
                        reason,
                    },
                ),
            }
        },
    }
}

/// What an answer to the request for the collection says.
pub open spec fn listed_of(device: DeviceView, answer: Answer) -> Result<
    Seq<DestinationView>,
    WalkupErrorView,
> {
    match expected_of(device, list_request(), seq![OK], answer) {
        Err(e) => Err(e),
        Ok(r) => match destinations_of(xml_events(r.body)) {
            Ok(entries) => Ok(entries),
            Err(reason) => Err(
                WalkupErrorView::Malformed {
                    device,
                    request: request_text(list_request()),
                    reason,
                },
            ),
        },
    }
}

/// What an answer to a deletion says. An entry that is not there any more is gone.
pub open spec fn removed_of(device: DeviceView, uri: Seq<char>, answer: Answer) -> Result<
    (),
    WalkupErrorView,
> {
    match expected_of(device, delete_request(uri), seq![OK, NO_CONTENT, NOT_FOUND], answer) {
        Err(e) => Err(e),
        Ok(_) => Ok(()),
    }
}

/// What is said of a registration that cannot be undone.
pub const NO_LOCATION: &'static str =
    "201 Created without a Location, so the entry it made has no URI to delete it by";

/// What an answer to a registration says: the URI of the entry it made.
pub open spec fn created_of(device: DeviceView, name: Seq<char>, answer: Answer) -> Result<
    Seq<char>,
    WalkupErrorView,
> {
    match expected_of(device, post_request(name), seq![CREATED], answer) {
        Err(e) => Err(e),
        Ok(r) => match header_of(r.headers, "Location"@) {
            Some(uri) => Ok(uri),
            None => Err(
                WalkupErrorView::Malformed {
                    device,
                    request: request_text(post_request(name)),
                    reason: NO_LOCATION@,
                },
            ),
        },
    }
}

/// The entries that `name` registered, in order.
pub open spec fn own_entries(entries: Seq<DestinationView>, name: Seq<char>) -> Seq<DestinationView>
    decreases entries.len(),
{
    if entries.len() == 0 {
        seq![]
    } else {
        let front = own_entries(entries.drop_last(), name);
        if owned_by(entries.last(), name) {
            front.push(entries.last())
        } else {
            front
        }
    }
}

/// What a successful registration did: the URI of the entry, and the entries it swept.
#[derive(Debug, Clone, PartialEq, Eq)]
pub struct Registration {
    uri: String,
    swept: Vec<Destination>,
}

/// What a [`Registration`] says.
pub struct RegistrationView {
    pub uri: Seq<char>,
    pub swept: Seq<DestinationView>,
}

impl View for Registration {
    type V = RegistrationView;

    closed spec fn view(&self) -> RegistrationView {
        RegistrationView { uri: self.uri@, swept: destination_views(self.swept@) }
    }
}

impl Registration {
    /// The URI of this host's entry.
    pub fn uri(&self) -> (r: &str)
        ensures
            r@ == self@.uri,
    {
        self.uri.as_str()
    }

    /// The stale entries of this host that registering removed.
    pub fn swept(&self) -> (r: &[Destination])
        ensures
            destination_views(r@) == self@.swept,
    {
        self.swept.as_slice()
    }
}

/// Which answer a registration waits for.
#[derive(Debug, Clone, PartialEq, Eq)]
enum Stage {
    /// That to the request for the capability document.
    Capabilities,
    /// That to the request for the collection.
    Listing { limits: Limits },
    /// That to the deletion of one of this host's own entries.
    Sweeping { limits: Limits, occupied: usize, mine: Vec<Destination>, done: usize },
    /// That to the registration itself.
    Posting { mine: Vec<Destination> },
}

/// Which answer a registration waits for.
pub enum StageView {
    Capabilities,
    Listing { limit: Option<u32> },
    Sweeping { limit: Option<u32>, occupied: nat, mine: Seq<DestinationView>, done: nat },
    Posting { mine: Seq<DestinationView> },
}

/// A registration under way.
#[derive(Debug, PartialEq, Eq)]
pub struct Install {
    device: Device,
    name: String,
    stage: Stage,
}

/// What an [`Install`] says.
pub struct InstallView {
    pub device: DeviceView,
    pub name: Seq<char>,
    pub stage: StageView,
}

impl Stage {
    spec fn says(&self) -> StageView {
        match *self {
            Stage::Capabilities => StageView::Capabilities,
            Stage::Listing { limits } => StageView::Listing { limit: limits@ },
            Stage::Sweeping { limits, occupied, mine, done } => StageView::Sweeping {
                limit: limits@,
                occupied: occupied as nat,
                mine: destination_views(mine@),
                done: done as nat,
            },
            Stage::Posting { mine } => StageView::Posting { mine: destination_views(mine@) },
        }
    }
}

impl View for Install {
    type V = InstallView;

    closed spec fn view(&self) -> InstallView {
        InstallView { device: self.device@, name: self.name@, stage: self.stage.says() }
    }
}

/// What follows an answer: another request, or the outcome. `None` is a device that has no
/// collection to register with.
pub enum Turn {
    Ask(Install, Request),
    Done(Result<Option<Registration>, WalkupError>),
}

/// What a [`Turn`] says.
pub enum TurnView {
    Ask(InstallView, RequestView),
    Done(Result<Option<RegistrationView>, WalkupErrorView>),
}

impl View for Turn {
    type V = TurnView;

    open spec fn view(&self) -> TurnView {
        match *self {
            Turn::Ask(install, request) => TurnView::Ask(install@, request@),
            Turn::Done(outcome) => TurnView::Done(
                match outcome {
                    Ok(Some(r)) => Ok(Some(r@)),
                    Ok(None) => Ok(None),
                    Err(e) => Err(e@),
                },
            ),
        }
    }
}

/// Whether a registration under way makes sense: every entry to be swept is this host's
/// own, and the one being deleted is one of them.
pub open spec fn sound(i: InstallView) -> bool {
    match i.stage {
        StageView::Sweeping { limit, occupied, mine, done } => done < mine.len() <= occupied
            && forall|k: int| 0 <= k < mine.len() ==> owned_by(#[trigger] mine[k], i.name),
        StageView::Posting { mine } => forall|k: int|
            0 <= k < mine.len() ==> owned_by(#[trigger] mine[k], i.name),
        _ => true,
    }
}

/// What follows once none of this host's entries is left: the registration, unless the
/// others fill the collection.
pub open spec fn after_sweep(
    device: DeviceView,
    name: Seq<char>,
    limit: Option<u32>,
    occupied: nat,
    mine: Seq<DestinationView>,
) -> TurnView {
    match limit {
        Some(n) => if occupied - mine.len() >= n {
            TurnView::Done(Err(WalkupErrorView::Full { device, limit: n }))
        } else {
            TurnView::Ask(
                InstallView { device, name, stage: StageView::Posting { mine } },
                post_request(name),
            )
        },
        None => TurnView::Ask(
            InstallView { device, name, stage: StageView::Posting { mine } },
            post_request(name),
        ),
    }
}

/// What follows once the collection is known: the deletion of this host's first entry, or
/// what follows the sweep.
pub open spec fn after_listing(
    device: DeviceView,
    name: Seq<char>,
    limit: Option<u32>,
    entries: Seq<DestinationView>,
) -> TurnView {
    let mine = own_entries(entries, name);
    if mine.len() > 0 {
        TurnView::Ask(
            InstallView {
                device,
                name,
                stage: StageView::Sweeping { limit, occupied: entries.len(), mine, done: 0 },
            },
            delete_request(mine[0].uri),
        )
    } else {
        after_sweep(device, name, limit, entries.len(), mine)
    }
}

/// What follows an answer.
pub open spec fn turn_of(i: InstallView, answer: Answer) -> TurnView {
    match i.stage {
        StageView::Capabilities => match limits_of(i.device, answer) {
            Err(e) => TurnView::Done(Err(e)),
            Ok(None) => TurnView::Done(Ok(None)),
            Ok(Some(limit)) => TurnView::Ask(
                InstallView { stage: StageView::Listing { limit }, ..i },
                list_request(),
            ),
        },
        StageView::Listing { limit } => match listed_of(i.device, answer) {
            Err(e) => TurnView::Done(Err(e)),
            Ok(entries) => after_listing(i.device, i.name, limit, entries),
        },
        StageView::Sweeping { limit, occupied, mine, done } => match removed_of(
            i.device,
            mine[done as int].uri,
            answer,
        ) {
            Err(e) => TurnView::Done(Err(e)),
            Ok(()) => if done + 1 < mine.len() {
                TurnView::Ask(
                    InstallView {
                        stage: StageView::Sweeping { limit, occupied, mine, done: done + 1 },
                        ..i
                    },
                    delete_request(mine[done as int + 1].uri),
                )
            } else {
                after_sweep(i.device, i.name, limit, occupied, mine)
            },
        },
        StageView::Posting { mine } => match created_of(i.device, i.name, answer) {
            Err(e) => TurnView::Done(Err(e)),
            Ok(uri) => TurnView::Done(Ok(Some(RegistrationView { uri, swept: mine }))),
        },
    }
}

fn holds_status(expected: &[u16], status: u16) -> (r: bool)
    ensures
        r == expected@.contains(status),
{
    let mut i: usize = 0;
    while i < expected.len()
        invariant
            i <= expected@.len(),
            forall|j: int| 0 <= j < i ==> expected@[j] != status,
        decreases expected@.len() - i,
    {
        if expected[i] == status {
            assert(expected@[i as int] == status);
            return true;
        }
        i = i + 1;
    }
    false
}

impl Walkup {
    /// The walk-up resources of a device.
    pub fn new(device: Device) -> (r: Self)
        ensures
            r@ == device@,
    {
        Walkup { device }
    }

    /// The device.
    pub fn device(&self) -> (r: &Device)
        ensures
            r@ == self@,
    {
        &self.device
    }

    /// What an answer to `request` says, whatever its status.
    pub fn exchange(&self, request: &Request, answer: Result<Response, TransportError>) -> (r:
        Result<Response, WalkupError>)
        ensures
            match exchanged(self@, request@, answer_view(answer)) {
                Ok(v) => r matches Ok(x) && x@ == v,
                Err(e) => r matches Err(x) && x@ == e,
            },
    {
        match answer {
            Ok(response) => Ok(response),
            Err(source) => Err(
                WalkupError::Unreachable {
                    device: self.device.clone(),
                    request: request.to_text(),
                    source,
                },
            ),
        }
    }

    /// What an answer to `request` says, when only one of `expected` will do.
    pub fn expect(
        &self,
        request: &Request,
        expected: &[u16],
        answer: Result<Response, TransportError>,
    ) -> (r: Result<Response, WalkupError>)
        ensures
            match expected_of(self@, request@, expected@, answer_view(answer)) {
                Ok(v) => r matches Ok(x) && x@ == v,
                Err(e) => r matches Err(x) && x@ == e,
            },
    {
        match self.exchange(request, answer) {
            Err(e) => Err(e),
            Ok(response) => {
                if holds_status(expected, response.status()) {
                    Ok(response)
                } else {
                    Err(
                        WalkupError::Refused {
                            device: self.device.clone(),
                            request: request.to_text(),
                            rejection: Rejection::of(response.status()),
                        },
                    )
                }
            },
        }
    }

    /// What the answer to a `GET` of [`CAPS_PATH`] says, or `None` when the device does not
    /// serve it.
    pub fn limits(&self, answer: Result<Response, TransportError>) -> (r: Result<
        Option<Limits>,
        WalkupError,
    >)
        ensures
            match limits_of(self@, answer_view(answer)) {
                Ok(Some(limit)) => r matches Ok(Some(x)) && x@ == limit,
                Ok(None) => r matches Ok(None),
                Err(e) => r matches Err(x) && x@ == e,
            },
    {
        let request = Request::get(CAPS_PATH.to_owned());
        let expected: [u16; 2] = [OK, NOT_FOUND];
        assert(expected@ =~= seq![OK, NOT_FOUND]);
        let response = match self.expect(&request, expected.as_slice(), answer) {
            Ok(x) => x,
            Err(e) => {
                return Err(e);
            },
        };
        if response.status() == NOT_FOUND {
            return Ok(None);
        }
        match parse_capabilities(response.body()) {
            Ok(limits) => Ok(Some(limits)),
            Err(e) => Err(
                WalkupError::Malformed {
                    device: self.device.clone(),
                    request: request.to_text(),
                    reason: e.to_text(),
                },
            ),
        }
    }

    /// What the answer to a `GET` of [`DESTINATIONS_PATH`] says.
    pub fn destinations(&self, answer: Result<Response, TransportError>) -> (r: Result<
        Vec<Destination>,
        WalkupError,
    >)
        ensures
            match listed_of(self@, answer_view(answer)) {
                Ok(entries) => r matches Ok(x) && destination_views(x@) == entries,
                Err(e) => r matches Err(x) && x@ == e,
            },
    {
        let request = Request::get(DESTINATIONS_PATH.to_owned());
        let expected: [u16; 1] = [OK];
        assert(expected@ =~= seq![OK]);
        let response = match self.expect(&request, expected.as_slice(), answer) {
            Ok(x) => x,
            Err(e) => {
                return Err(e);
            },
        };
        match parse_destinations(response.body()) {
            Ok(entries) => Ok(entries),
            Err(e) => Err(
                WalkupError::Malformed {
                    device: self.device.clone(),
                    request: request.to_text(),
                    reason: e.to_text(),
                },
            ),
        }
    }

    /// What the answer to the `DELETE` of an entry says.
    pub fn remove(&self, uri: &str, answer: Result<Response, TransportError>) -> (r: Result<
        (),
        WalkupError,
    >)
        ensures
            match removed_of(self@, uri@, answer_view(answer)) {
                Ok(_) => r is Ok,
                Err(e) => r matches Err(x) && x@ == e,
            },
    {
        let request = Request::delete(uri.to_owned());
        let expected: [u16; 3] = [OK, NO_CONTENT, NOT_FOUND];
        assert(expected@ =~= seq![OK, NO_CONTENT, NOT_FOUND]);
        match self.expect(&request, expected.as_slice(), answer) {
            Ok(_) => Ok(()),
            Err(e) => Err(e),
        }
    }

    /// The URI in the answer to the registration of `name`.
    fn created(&self, name: &str, answer: Result<Response, TransportError>) -> (r: Result<
        String,
        WalkupError,
    >)
        ensures
            match created_of(self@, name@, answer_view(answer)) {
                Ok(uri) => r matches Ok(x) && x@ == uri,
                Err(e) => r matches Err(x) && x@ == e,
            },
    {
        let request = Request::post_xml(
            DESTINATIONS_PATH.to_owned(),
            destination_document(name),
        );
        let expected: [u16; 1] = [CREATED];
        assert(expected@ =~= seq![CREATED]);
        let response = match self.expect(&request, expected.as_slice(), answer) {
            Ok(x) => x,
            Err(e) => {
                return Err(e);
            },
        };
        match response.location() {
            Some(uri) => Ok(uri.to_owned()),
            None => Err(
                WalkupError::Malformed {
                    device: self.device.clone(),
                    request: request.to_text(),
                    reason: NO_LOCATION.to_owned(),
                },
            ),
        }
    }

    /// Puts this host on the panel, if the device has a panel to put it on: what to ask
    /// first.
    pub fn install(&self, name: &str) -> (r: (Install, Request))
        ensures
            r.0@ == (InstallView {
                device: self@,
                name: name@,
                stage: StageView::Capabilities,
            }),
            r.1@ == caps_request(),
    {
        (
            Install {
                device: self.device.clone(),
                name: name.to_owned(),
                stage: Stage::Capabilities,
            },
            Request::get(CAPS_PATH.to_owned()),
        )
    }

    /// Registers this host under `name` within `limits`, after removing whatever it left
    /// behind: what to ask first.
    pub fn register(&self, name: &str, limits: &Limits) -> (r: (Install, Request))
        ensures
            r.0@ == (InstallView {
                device: self@,
                name: name@,
                stage: StageView::Listing { limit: limits@ },
            }),
            r.1@ == list_request(),
    {
        (
            Install {
                device: self.device.clone(),
                name: name.to_owned(),
                stage: Stage::Listing { limits: *limits },
            },
            Request::get(DESTINATIONS_PATH.to_owned()),
        )
    }
}

fn own(entries: &Vec<Destination>, name: &str) -> (r: Vec<Destination>)
    ensures
        destination_views(r@) == own_entries(destination_views(entries@), name@),
        r@.len() <= entries@.len(),
{
    let ghost all = destination_views(entries@);
    let mut out: Vec<Destination> = Vec::new();
    let mut i: usize = 0;
    assert(all.take(0) =~= Seq::<DestinationView>::empty());
    assert(destination_views(out@) =~= seq![]);
    while i < entries.len()
        invariant
            i <= entries@.len(),
            all == destination_views(entries@),
            destination_views(out@) == own_entries(all.take(i as int), name@),
            out@.len() <= i,
        decreases entries@.len() - i,
    {
        let ghost before = out@;
        proof {
            assert(all.take(i + 1).last() == entries@[i as int]@);
            assert(all.take(i + 1).drop_last() =~= all.take(i as int));
        }
        if entries[i].registered_by(name) {
            let copy = entries[i].clone();
            let ghost copied = copy@;
            out.push(copy);
            assert(destination_views(out@) =~= destination_views(before).push(copied));
        }
        i = i + 1;
    }
    assert(all.take(i as int) =~= all);
    out
}

impl Install {
    #[verifier::type_invariant]
    spec fn makes_sense(self) -> bool {
        sound(self@)
    }

    fn sweep_done(
        device: Device,
        name: String,
        limits: Limits,
        occupied: usize,
        mine: Vec<Destination>,
    ) -> (r: Turn)
        requires
            mine@.len() <= occupied,
            forall|k: int|
                0 <= k < mine@.len() ==> owned_by(
                    #[trigger] destination_views(mine@)[k],
                    name@,
                ),
        ensures
            r@ == after_sweep(
                device@,
                name@,
                limits@,
                occupied as nat,
                destination_views(mine@),
            ),
    {
        match limits.max_network_destinations() {
            Some(limit) => {
                if occupied - mine.len() >= limit as usize {
                    return Turn::Done(Err(WalkupError::Full { device, limit }));
                }
            },
            None => {},
        }
        let request = Request::post_xml(
            DESTINATIONS_PATH.to_owned(),
            destination_document(name.as_str()),
        );
        Turn::Ask(Install { device, name, stage: Stage::Posting { mine } }, request)
    }

    /// What follows an answer to the last request.
    pub fn answer(self, answer: Result<Response, TransportError>) -> (r: Turn)
        ensures
            r@ == turn_of(self@, answer_view(answer)),
    {
        let ghost before = self@;
        let ghost seen = answer_view(answer);
        proof {
            use_type_invariant(&self);
            law_only_own_entries_are_deleted(before, seen);
        }
        let walkup = Walkup::new(self.device.clone());
        let device = self.device;
        let name = self.name;
        match self.stage {
            Stage::Capabilities => match walkup.limits(answer) {
                Err(e) => Turn::Done(Err(e)),
                Ok(None) => Turn::Done(Ok(None)),
                Ok(Some(limits)) => Turn::Ask(
                    Install { device, name, stage: Stage::Listing { limits } },
                    Request::get(DESTINATIONS_PATH.to_owned()),
                ),
            },
            Stage::Listing { limits } => {
                let entries = match walkup.destinations(answer) {
                    Ok(x) => x,
                    Err(e) => {
                        return Turn::Done(Err(e));
                    },
                };
                let mine = own(&entries, name.as_str());
                proof {
                    lemma_own_entries(destination_views(entries@), name@);
                }
                let occupied: usize = entries.len();
                if mine.len() > 0 {
                    let request = Request::delete(mine[0].uri().to_owned());
                    Turn::Ask(
                        Install {
                            device,
                            name,
                            stage: Stage::Sweeping { limits, occupied, mine, done: 0 },
                        },
                        request,
                    )
                } else {
                    Install::sweep_done(device, name, limits, occupied, mine)
                }
            },
            Stage::Sweeping { limits, occupied, mine, done } => {
                assert(destination_views(mine@)[done as int] == mine@[done as int]@);
                match walkup.remove(mine[done].uri(), answer) {
                    Ok(()) => {},
                    Err(e) => {
                        return Turn::Done(Err(e));
                    },
                }
                if done + 1 < mine.len() {
                    let request = Request::delete(mine[done + 1].uri().to_owned());
                    Turn::Ask(
                        Install {
                            device,
                            name,
                            stage: Stage::Sweeping { limits, occupied, mine, done: done + 1 },
                        },
                        request,
                    )
                } else {
                    Install::sweep_done(device, name, limits, occupied, mine)
                }
            },
            Stage::Posting { mine } => match walkup.created(name.as_str(), answer) {
                Ok(uri) => Turn::Done(Ok(Some(Registration { uri, swept: mine }))),
                Err(e) => Turn::Done(Err(e)),
            },
        }
    }
}

proof fn lemma_own_entries(entries: Seq<DestinationView>, name: Seq<char>)
    ensures
        own_entries(entries, name).len() <= entries.len(),
        forall|k: int|
            0 <= k < own_entries(entries, name).len() ==> owned_by(
                #[trigger] own_entries(entries, name)[k],
                name,
            ) && entries.contains(own_entries(entries, name)[k]),
        forall|k: int|
            0 <= k < entries.len() && owned_by(#[trigger] entries[k], name) ==> own_entries(
                entries,
                name,
            ).contains(entries[k]),
    decreases entries.len(),
{
    if entries.len() > 0 {
        let front = entries.drop_last();
        lemma_own_entries(front, name);
        let mine = own_entries(entries, name);
        let before = own_entries(front, name);
        assert forall|k: int| 0 <= k < mine.len() implies owned_by(#[trigger] mine[k], name)
            && entries.contains(mine[k]) by {
            if k < before.len() {
                assert(mine[k] == before[k]);
                let j = front.index_of(before[k]);
                assert(entries[j] == mine[k]);
            } else {
                assert(entries[entries.len() - 1] == mine[k]);
            }
        }
        assert forall|k: int| 0 <= k < entries.len() && owned_by(
            #[trigger] entries[k],
            name,
        ) implies mine.contains(entries[k]) by {
            if k < front.len() {
                assert(front[k] == entries[k]);
                let j = before.index_of(entries[k]);
                assert(mine[j] == entries[k]);
            } else {
                assert(mine[mine.len() - 1] == entries[k]);
            }
        }
    }
}

/// No other machine's entry is touched: a registration that makes sense keeps making sense,
/// and every deletion it asks for is that of an entry this host registered.
pub proof fn law_only_own_entries_are_deleted(i: InstallView, answer: Answer)
    requires
        sound(i),
    ensures
        turn_of(i, answer) matches TurnView::Ask(next, request) ==> sound(next)
            && next.name == i.name && next.device == i.device && (request.method == Method::Delete
            ==> (next.stage matches StageView::Sweeping { limit, occupied, mine, done } && request
            == delete_request(mine[done as int].uri) && owned_by(mine[done as int], i.name))),
{
    match i.stage {
        StageView::Listing { limit } => match listed_of(i.device, answer) {
            Ok(entries) => {
                lemma_own_entries(entries, i.name);
            },
            Err(_) => {},
        },
        _ => {},
    }
}

/// Nothing is posted before every entry of this host's own is gone: the registration is
/// asked for only behind a collection without one, or behind the deletion of the last one.
pub proof fn law_sweep_comes_before_the_registration(i: InstallView, answer: Answer)
    requires
        sound(i),
        turn_of(i, answer) matches TurnView::Ask(_, request) && request.method == Method::Post,
    ensures
        match i.stage {
            StageView::Listing { limit } => listed_of(i.device, answer) matches Ok(entries)
                && forall|k: int| 0 <= k < entries.len() ==> !owned_by(#[trigger] entries[k], i.name),
            StageView::Sweeping { limit, occupied, mine, done } => done + 1 == mine.len()
                && removed_of(i.device, mine[done as int].uri, answer) is Ok,
            _ => false,
        },
{
    match i.stage {
        StageView::Listing { limit } => match listed_of(i.device, answer) {
            Ok(entries) => {
                lemma_own_entries(entries, i.name);
                assert forall|k: int| 0 <= k < entries.len() implies !owned_by(
                    #[trigger] entries[k],
                    i.name,
                ) by {
                    if owned_by(entries[k], i.name) {
                        assert(own_entries(entries, i.name).contains(entries[k]));
                    }
                }
            },
            Err(_) => {},
        },
        _ => {},
    }
}

/// Every entry of this host's own that the collection lists is among those to delete, and
/// deleting starts with the first of them.
pub proof fn law_every_own_entry_is_swept(
    device: DeviceView,
    name: Seq<char>,
    limit: Option<u32>,
    entries: Seq<DestinationView>,
    k: int,
)
    requires
        0 <= k < entries.len(),
        owned_by(entries[k], name),
    ensures
        after_listing(device, name, limit, entries) matches TurnView::Ask(next, _)
            && next.stage matches StageView::Sweeping { limit: _, occupied, mine, done }
            && mine.contains(entries[k]) && done == 0 && occupied == entries.len(),
{
    lemma_own_entries(entries, name);
    assert(own_entries(entries, name).contains(entries[k]));
}

/// A device that serves no capability document is asked for nothing more, and that is no
/// failure.
pub proof fn law_no_collection_no_request(i: InstallView, r: ResponseView)
    requires
        i.stage == StageView::Capabilities,
        r.status == NOT_FOUND,
    ensures
        turn_of(i, Ok(r)) == TurnView::Done(Ok::<Option<RegistrationView>, WalkupErrorView>(None)),
{
    let expected = seq![OK, NOT_FOUND];
    assert(expected[1] == r.status);
}

/// A collection counts as full only by the entries of others: with room for one more beside
/// those, or without a limit, the registration is asked for.
pub proof fn law_only_others_fill_a_collection(
    device: DeviceView,
    name: Seq<char>,
    limit: Option<u32>,
    occupied: nat,
    mine: Seq<DestinationView>,
)
    requires
        mine.len() <= occupied,
    ensures
        limit is None || occupied - mine.len() < limit->0 ==> after_sweep(
            device,
            name,
            limit,
            occupied,
            mine,
        ) == TurnView::Ask(
            InstallView { device, name, stage: StageView::Posting { mine } },
            post_request(name),
        ),
        limit is Some && occupied - mine.len() >= limit->0 ==> after_sweep(
            device,
            name,
            limit,
            occupied,
            mine,
        ) == TurnView::Done(
            Err::<Option<RegistrationView>, WalkupErrorView>(
                WalkupErrorView::Full { device, limit: limit->0 },
            ),
        ),
{
}

/// What a run asks for and what comes out of it, from the answers to what is asked for, in
/// order; nothing comes out while an answer is still waited for.
pub open spec fn run_of(i: InstallView, answers: Seq<Answer>) -> (
    Seq<RequestView>,
    Option<Result<Option<RegistrationView>, WalkupErrorView>>,
)
    decreases answers.len(),
{
    if answers.len() == 0 {
        (seq![], None)
    } else {
        match turn_of(i, answers[0]) {
            TurnView::Done(outcome) => (seq![], Some(outcome)),
            TurnView::Ask(next, request) => {
                let (more, outcome) = run_of(next, answers.drop_first());
                (seq![request] + more, outcome)
            },
        }
    }
}

/// The requests that delete entries, in order.
pub open spec fn deletions(entries: Seq<DestinationView>) -> Seq<RequestView> {
    entries.map_values(|d: DestinationView| delete_request(d.uri))
}

proof fn lemma_posting_run(i: InstallView, answers: Seq<Answer>)
    requires
        i.stage is Posting,
    ensures
        run_of(i, answers).0 =~= seq![],
        run_of(i, answers).1 != Some(Ok::<Option<RegistrationView>, WalkupErrorView>(None)),
        run_of(i, answers).1 matches Some(Ok(Some(r))) ==> answers.len() > 0 && i.stage
            == (StageView::Posting { mine: r.swept }) && created_of(i.device, i.name, answers[0])
            == Ok::<Seq<char>, WalkupErrorView>(r.uri),
{
}

proof fn lemma_sweeping_run(i: InstallView, answers: Seq<Answer>)
    requires
        sound(i),
        i.stage is Sweeping,
    ensures
        run_of(i, answers).1 != Some(Ok::<Option<RegistrationView>, WalkupErrorView>(None)),
        run_of(i, answers).1 matches Some(Ok(Some(r))) ==> (i.stage matches StageView::Sweeping {
            limit: _,
            occupied: _,
            mine,
            done,
        } && r.swept == mine && run_of(i, answers).0 == deletions(mine).skip(done as int + 1).push(
            post_request(i.name),
        ) && mine.len() - done < answers.len() && created_of(
            i.device,
            i.name,
            answers[mine.len() - done],
        ) == Ok::<Seq<char>, WalkupErrorView>(r.uri)),
    decreases answers.len(),
{
    if answers.len() > 0 {
        match i.stage {
            StageView::Sweeping { limit, occupied, mine, done } => match turn_of(i, answers[0]) {
                TurnView::Done(_) => {},
                TurnView::Ask(next, request) => {
                    let rest = answers.drop_first();
                    law_only_own_entries_are_deleted(i, answers[0]);
                    if done + 1 < mine.len() {
                        lemma_sweeping_run(next, rest);
                        assert(deletions(mine)[done as int + 1] == request);
                        assert(seq![request] + deletions(mine).skip(done as int + 2).push(
                            post_request(i.name),
                        ) =~= deletions(mine).skip(done as int + 1).push(post_request(i.name)));
                        match run_of(i, answers).1 {
                            Some(Ok(Some(r))) => {
                                assert(rest[mine.len() - done - 1] == answers[mine.len() - done]);
                            },
                            _ => {},
                        }
                    } else {
                        lemma_posting_run(next, rest);
                        assert(run_of(i, answers).0 =~= seq![request]);
                        assert(deletions(mine).skip(done as int + 1).push(post_request(i.name))
                            =~= seq![request]);
                        match run_of(i, answers).1 {
                            Some(Ok(Some(r))) => {
                                assert(rest[0] == answers[1]);
                            },
                            _ => {},
                        }
                    }
                },
            },
            _ => {},
        }
    }
}

/// A registration that comes out has deleted every entry of this host's own that the
/// collection listed, in order, and then, and only once, registered; what it says it swept is
/// what it deleted, and its URI is the one that the device gave. No run comes out with
/// nothing.
pub proof fn law_a_registration_sweeps_and_posts_once(i: InstallView, answers: Seq<Answer>)
    requires
        i.stage is Listing,
    ensures
        run_of(i, answers).1 != Some(Ok::<Option<RegistrationView>, WalkupErrorView>(None)),
        run_of(i, answers).1 matches Some(Ok(Some(r))) ==> (listed_of(
            i.device,
            answers[0],
        ) matches Ok(entries) && ({
            let mine = own_entries(entries, i.name);
            &&& r.swept == mine
            &&& run_of(i, answers).0 == deletions(mine).push(post_request(i.name))
            &&& mine.len() + 1 < answers.len()
            &&& created_of(i.device, i.name, answers[mine.len() as int + 1]) == Ok::<
                Seq<char>,
                WalkupErrorView,
            >(r.uri)
        })),
{
    if answers.len() > 0 {
        let rest = answers.drop_first();
        match (i.stage, listed_of(i.device, answers[0])) {
            (StageView::Listing { limit }, Ok(entries)) => {
                let mine = own_entries(entries, i.name);
                law_only_own_entries_are_deleted(i, answers[0]);
                match turn_of(i, answers[0]) {
                    TurnView::Ask(next, request) => {
                        if mine.len() > 0 {
                            lemma_sweeping_run(next, rest);
                            assert(deletions(mine)[0] == request);
                            assert(seq![request] + deletions(mine).skip(1).push(
                                post_request(i.name),
                            ) =~= deletions(mine).push(post_request(i.name)));
                            match run_of(i, answers).1 {
                                Some(Ok(Some(r))) => {
                                    assert(rest[mine.len() as int] == answers[mine.len() as int
                                        + 1]);
                                },
                                _ => {},
                            }
                        } else {
                            lemma_posting_run(next, rest);
                            assert(run_of(i, answers).0 =~= seq![request]);
                            assert(deletions(mine).push(post_request(i.name)) =~= seq![request]);
                            match run_of(i, answers).1 {
                                Some(Ok(Some(r))) => {
                                    assert(rest[0] == answers[1]);
                                },
                                _ => {},
                            }
                        }
                    },
                    TurnView::Done(_) => {},
                }
            },
            _ => {},
        }
    }
}

// ------------------------------------------------------------- entries are single elements

/// Whether an event opens or closes an entry.
pub open spec fn is_entry_tag(event: XmlEventView) -> bool {
    event == XmlEventView::Start(entry_name()) || event == XmlEventView::End(entry_name())
}

/// A collection right behind the tag that opens an entry, with a field open or not.
pub open spec fn just_opened(field: Option<Field>) -> DestState {
    DestState { entry: Some((None, None)), field, out: seq![] }
}

/// Whether an entry is what the events of one element say: those behind the tag at `from`,
/// which opens it, up to the tag at `to`, which closes it, with no such tag between. `field`
/// is the field that is open there, for a tag that stands inside of one.
pub open spec fn says_entry(
    events: Seq<XmlEventView>,
    from: int,
    to: int,
    field: Option<Field>,
    entry: DestinationView,
) -> bool {
    &&& 0 <= from < to < events.len()
    &&& events[from] == XmlEventView::Start(entry_name())
    &&& events[to] == XmlEventView::End(entry_name())
    &&& forall|i: int| from < i < to ==> !is_entry_tag(#[trigger] events[i])
    &&& dest_from(just_opened(field), events.subrange(from + 1, to + 1)) == Ok::<
        Seq<DestinationView>,
        Seq<char>,
    >(seq![entry])
}

/// How far a collection has been read behind some events, if none of them is an error.
spec fn read_through(s: DestState, events: Seq<XmlEventView>) -> Option<DestState>
    decreases events.len(),
{
    if events.len() == 0 {
        Some(s)
    } else {
        match read_through(s, events.drop_last()) {
            Some(t) => match dest_step(t, events.last()) {
                Ok(u) => Some(u),
                Err(_) => None,
            },
            None => None,
        }
    }
}

proof fn lemma_read_through(s: DestState, events: Seq<XmlEventView>, more: Seq<XmlEventView>)
    requires
        read_through(s, events) is Some,
    ensures
        dest_from(s, events + more) == dest_from(read_through(s, events)->Some_0, more),
    decreases events.len(),
{
    if events.len() == 0 {
        assert(events + more =~= more);
    } else {
        let front = events.drop_last();
        let rest = seq![events.last()] + more;
        lemma_read_through(s, front, rest);
        assert(front + rest =~= events + more);
        assert(rest[0] == events.last());
        assert(rest.drop_first() =~= more);
    }
}

proof fn lemma_an_error_stays(s: DestState, events: Seq<XmlEventView>, more: Seq<XmlEventView>)
    requires
        read_through(s, events) is None,
    ensures
        dest_from(s, events + more) is Err,
    decreases events.len(),
{
    let front = events.drop_last();
    let rest = seq![events.last()] + more;
    assert(front + rest =~= events + more);
    match read_through(s, front) {
        Some(t) => {
            lemma_read_through(s, front, rest);
            assert(rest[0] == events.last());
        },
        None => {
            lemma_an_error_stays(s, front, rest);
        },
    }
}

/// Whether everything that was read so far comes from single elements: each entry that was
/// closed, and what there is of the one that is open.
spec fn from_single_elements(events: Seq<XmlEventView>, s: DestState) -> bool {
    &&& forall|k: int|
        0 <= k < s.out.len() ==> (#[trigger] s.out[k]).uri.len() > 0 && exists|
            from: int,
            to: int,
            field: Option<Field>,
        |
            says_entry(events, from, to, field, s.out[k])
    &&& s.entry is Some ==> exists|from: int, field: Option<Field>|
        open_since(events, s, from, field)
}

/// Whether the entry that is open was opened by the tag at `from`.
spec fn open_since(
    events: Seq<XmlEventView>,
    s: DestState,
    from: int,
    field: Option<Field>,
) -> bool {
    &&& 0 <= from < events.len()
    &&& events[from] == XmlEventView::Start(entry_name())
    &&& forall|i: int| from < i < events.len() ==> !is_entry_tag(#[trigger] events[i])
    &&& read_through(just_opened(field), events.skip(from + 1)) == Some(
        DestState { out: seq![], ..s },
    )
}

proof fn lemma_says_entry_with_more(
    events: Seq<XmlEventView>,
    event: XmlEventView,
    from: int,
    to: int,
    field: Option<Field>,
    entry: DestinationView,
)
    requires
        says_entry(events, from, to, field, entry),
    ensures
        says_entry(events.push(event), from, to, field, entry),
{
    let longer = events.push(event);
    assert(longer.subrange(from + 1, to + 1) =~= events.subrange(from + 1, to + 1));
    assert forall|i: int| from < i < to implies !is_entry_tag(#[trigger] longer[i]) by {
        assert(longer[i] == events[i]);
    }
}

#[verifier::rlimit(40)]
proof fn lemma_single_elements_step(
    events: Seq<XmlEventView>,
    event: XmlEventView,
    s: DestState,
    t: DestState,
)
    requires
        from_single_elements(events, s),
        dest_step(s, event) == Ok::<DestState, Seq<char>>(t),
    ensures
        from_single_elements(events.push(event), t),
{
    let longer = events.push(event);
    let n = events.len() as int;
    // The entry that is open, as far as it goes on or comes to its end.
    if s.entry is Some && event != XmlEventView::Start(entry_name()) {
        let (from, field) = choose|from: int, field: Option<Field>|
            open_since(events, s, from, field);
        let inner = events.skip(from + 1);
        let more = longer.skip(from + 1);
        assert(more =~= inner.push(event));
        assert(more.drop_last() =~= inner);
        let alone = DestState { out: seq![], ..s };
        assert(read_through(just_opened(field), inner) == Some(alone));
        if event == XmlEventView::End(entry_name()) {
            assert(t.entry is None);
            let closed = entry_closed(alone);
            assert(dest_step(alone, event) == Ok::<DestState, Seq<char>>(closed));
            assert(read_through(just_opened(field), more) == Some(closed));
            lemma_read_through(just_opened(field), more, seq![]);
            assert(more + Seq::<XmlEventView>::empty() =~= more);
            assert(longer.subrange(from + 1, n + 1) =~= more);
            if t.out.len() > s.out.len() {
                let entry = t.out.last();
                assert(closed.out =~= seq![entry]);
                assert forall|i: int| from < i < n implies !is_entry_tag(
                    #[trigger] longer[i],
                ) by {
                    assert(longer[i] == events[i]);
                }
                assert(says_entry(longer, from, n, field, entry));
            }
        } else {
            assert(dest_step(alone, event) == Ok::<DestState, Seq<char>>(
                DestState { out: seq![], ..t },
            ));
            assert(read_through(just_opened(field), more) == Some(
                DestState { out: seq![], ..t },
            ));
            assert forall|i: int| from < i < longer.len() implies !is_entry_tag(
                #[trigger] longer[i],
            ) by {
                if i < n {
                    assert(longer[i] == events[i]);
                }
            }
            assert(open_since(longer, t, from, field));
        }
    } else if event != XmlEventView::Start(entry_name()) {
        assert(t.entry is None);
    }
    if event == XmlEventView::Start(entry_name()) {
        assert(longer.skip(n + 1) =~= seq![]);
        assert(just_opened(s.field) == (DestState { out: seq![], ..t }));
        assert(open_since(longer, t, n, s.field));
    }
    assert(t.entry is Some ==> exists|from: int, field: Option<Field>|
        open_since(longer, t, from, field));
    assert forall|k: int| 0 <= k < t.out.len() implies (#[trigger] t.out[k]).uri.len() > 0
        && exists|from: int, to: int, field: Option<Field>|
        says_entry(longer, from, to, field, t.out[k]) by {
        if k < s.out.len() {
            assert(t.out[k] == s.out[k]);
            let (from, to, field) = choose|from: int, to: int, field: Option<Field>|
                says_entry(events, from, to, field, s.out[k]);
            lemma_says_entry_with_more(events, event, from, to, field, s.out[k]);
        } else {
            assert(t.out[k] == t.out.last());
        }
    }
}

proof fn lemma_single_elements(events: Seq<XmlEventView>)
    ensures
        ({
            let start = DestState { entry: None, field: None, out: seq![] };
            read_through(start, events) matches Some(s) ==> from_single_elements(events, s)
        }),
    decreases events.len(),
{
    if events.len() > 0 {
        let start = DestState { entry: None, field: None, out: seq![] };
        let front = events.drop_last();
        lemma_single_elements(front);
        match read_through(start, front) {
            Some(s) => match dest_step(s, events.last()) {
                Ok(t) => {
                    lemma_single_elements_step(front, events.last(), s, t);
                    assert(front.push(events.last()) =~= events);
                },
                Err(_) => {},
            },
            None => {},
        }
    }
}

/// No URI is ever paired with the host of another entry: both come from one and the same
/// element of the collection, and none is returned without a URI.
pub proof fn law_an_entry_is_one_element(events: Seq<XmlEventView>, k: int)
    requires
        destinations_of(events) matches Ok(out) && 0 <= k < out.len(),
    ensures
        destinations_of(events)->Ok_0[k].uri.len() > 0,
        exists|from: int, to: int, field: Option<Field>|
            says_entry(events, from, to, field, destinations_of(events)->Ok_0[k]),
{
    let start = DestState { entry: None, field: None, out: seq![] };
    assert(events + Seq::<XmlEventView>::empty() =~= events);
    match read_through(start, events) {
        Some(s) => {
            lemma_read_through(start, events, seq![]);
            lemma_single_elements(events);
            assert(s.out[k] == destinations_of(events)->Ok_0[k]);
        },
        None => {
            lemma_an_error_stays(start, events, seq![]);
        },
    }
}

// ------------------------------------------------------------------ what documents and names say

/// Whether the pair at `i` is the last one with a key.
pub open spec fn is_last_with(
    pairs: Seq<(Seq<char>, Seq<char>)>,
    i: int,
    key: Seq<char>,
) -> bool {
    &&& 0 <= i < pairs.len() && pairs[i].0 == key
    &&& forall|j: int| i < j < pairs.len() ==> (#[trigger] pairs[j]).0 != key
}

/// Whether no pair has a key.
pub open spec fn has_none_with(pairs: Seq<(Seq<char>, Seq<char>)>, key: Seq<char>) -> bool {
    forall|j: int| 0 <= j < pairs.len() ==> (#[trigger] pairs[j]).0 != key
}

/// The last value of a key in pieces that are pairs.
pub proof fn lemma_last_value(
    pieces: Seq<Seq<char>>,
    pairs: Seq<(Seq<char>, Seq<char>)>,
    key: Seq<char>,
    i: int,
)
    requires
        pieces.len() == pairs.len(),
        forall|j: int|
            0 <= j < pieces.len() ==> split_once(#[trigger] pieces[j], '=') == Some(pairs[j]),
    ensures
        is_last_with(pairs, i, key) ==> last_value(pieces, key) == Some(pairs[i].1),
        has_none_with(pairs, key) ==> last_value(pieces, key) is None,
    decreases pieces.len(),
{
    if pieces.len() > 0 {
        let n = pieces.len() - 1;
        let less = pieces.drop_last();
        let fewer = pairs.drop_last();
        assert(split_once(pieces[n], '=') == Some(pairs[n]));
        assert forall|j: int| 0 <= j < less.len() implies split_once(#[trigger] less[j], '=')
            == Some(fewer[j]) by {
            assert(less[j] == pieces[j]);
        }
        lemma_last_value(less, fewer, key, i);
        if is_last_with(pairs, i, key) && i < n {
            assert(pairs[n].0 != key);
            assert(fewer[i] == pairs[i]);
            assert forall|j: int| i < j < fewer.len() implies (#[trigger] fewer[j]).0 != key by {
                assert(fewer[j] == pairs[j]);
            }
        }
        if has_none_with(pairs, key) {
            assert(pairs[n].0 != key);
            assert forall|j: int| 0 <= j < fewer.len() implies (#[trigger] fewer[j]).0 != key by {
                assert(fewer[j] == pairs[j]);
            }
        }
    }
}


/// The host that a device URI names in its query: its `ip`, else its `hostname`, else its
/// `zc`, the last of each that is given, without the dots behind it; one that is then empty is
/// none, and neither is a URI without a query or without those keys.
pub proof fn law_a_device_is_the_host_of_its_uri(
    base: Seq<char>,
    pairs: Seq<(Seq<char>, Seq<char>)>,
    i: int,
)
    requires
        !base.contains('?'),
        pairs.len() > 0 && text::are_pairs(pairs),
    ensures
        ({
            let uri = base + seq!['?'] + text::query_of(pairs);
            let no_ip = has_none_with(pairs, "ip"@);
            let no_name = has_none_with(pairs, "hostname"@);
            let named = is_last_with(pairs, i, "ip"@) || no_ip && is_last_with(
                pairs,
                i,
                "hostname"@,
            ) || no_ip && no_name && is_last_with(pairs, i, "zc"@);
            let host = drop_trailing(pairs[i].1, '.');
            &&& named && host.len() > 0 ==> uri_host(uri) == Some(host)
            &&& named && host.len() == 0 ==> uri_host(uri) is None
            &&& no_ip && no_name && has_none_with(pairs, "zc"@) ==> uri_host(uri) is None
        }),
        uri_host(base) is None,
{
    let query = text::query_of(pairs);
    let uri = base + seq!['?'] + query;
    let pieces = split(query, '&');
    text::lemma_split_first(base, '?', query);
    text::lemma_index_of(base, '?');
    assert(uri.skip(base.len() as int + 1) =~= query);
    text::lemma_query_pieces(pairs);
    lemma_last_value(pieces, pairs, "ip"@, i);
    lemma_last_value(pieces, pairs, "hostname"@, i);
    lemma_last_value(pieces, pairs, "zc"@, i);
}

/// What a device is called in a request: by its host alone where it serves on the port of
/// HTTP, with its port behind the last colon where it serves on another; an address with
/// colons stands in brackets, and nothing else does.
pub proof fn law_an_authority_is_host_and_port(d: DeviceView, other: DeviceView)
    ensures
        d.port == 80 && !d.host.contains(':') ==> authority_of(d) == d.host,
        d.port == 80 && d.host.contains(':') ==> authority_of(d) == seq!['['] + d.host + seq![
            ']',
        ],
        d.port != 80 && other.port == 80 && other.host == d.host ==> authority_of(d)
            == authority_of(other) + seq![':'] + decimal(d.port as nat),
{
    reveal_strlit("[");
    reveal_strlit("]");
    reveal_strlit(":");
    assert("["@ =~= seq!['[']);
    assert("]"@ =~= seq![']']);
    assert(":"@ =~= seq![':']);
}

/// A refusal says its status: it is the number that it keeps, and the one that its words
/// begin with.
pub proof fn law_a_refusal_says_its_status(status: u16)
    ensures
        Rejection::of_status(status).number() == status,
        text::begins(Rejection::of_status(status).words(), decimal(status as nat)),
        Rejection::of_status(status) == Rejection::BadDocument <==> status == 400,
        Rejection::of_status(status) == Rejection::NotFound <==> status == 404,
        Rejection::of_status(status) == Rejection::WrongMediaType <==> status == 415,
{
    reveal_strlit("400: the device refused the document");
    reveal_strlit("415: the device refused the Content-Type");
    reveal_strlit("404: no such resource on the device");
    reveal_with_fuel(decimal, 4);
    let words = Rejection::of_status(status).words();
    let number = decimal(status as nat);
    if status == 400 {
        assert(decimal(4) =~= seq!['4']);
        assert(decimal(40) =~= seq!['4', '0']);
        assert(number =~= seq!['4', '0', '0']);
    } else if status == 404 {
        assert(decimal(4) =~= seq!['4']);
        assert(decimal(40) =~= seq!['4', '0']);
        assert(number =~= seq!['4', '0', '4']);
    } else if status == 415 {
        assert(decimal(4) =~= seq!['4']);
        assert(decimal(41) =~= seq!['4', '1']);
        assert(number =~= seq!['4', '1', '5']);
    }
    assert(words.take(number.len() as int) =~= number);
}

/// What is reported of a failure: that the scanner is not reachable exactly where no answer
/// came; and either way the words for it, which begin with the device.
pub proof fn law_silence_is_a_scanner_that_is_not_reachable(
    e: WalkupErrorView,
    scanner: Seq<char>,
    device: DeviceView,
)
    requires
        match e {
            WalkupErrorView::Unreachable { device: d, .. } => d == device,
            WalkupErrorView::Refused { device: d, .. } => d == device,
            WalkupErrorView::Malformed { device: d, .. } => d == device,
            WalkupErrorView::Full { device: d, .. } => d == device,
        },
    ensures
        reported(e, scanner) is NotReachable <==> e is Unreachable,
        text::begins(walkup_error_text(e), authority_of(device)),
        match reported(e, scanner) {
            BackendErrorView::NotReachable { scanner: s, detail } => s == scanner && detail
                == walkup_error_text(e),
            BackendErrorView::Other(said) => text::ends(said, walkup_error_text(e))
                && text::begins(said, "scanner "@ + scanner),
            _ => false,
        },
{
    let words = walkup_error_text(e);
    let name = authority_of(device);
    assert(words.take(name.len() as int) =~= name);
    match reported(e, scanner) {
        BackendErrorView::Other(said) => {
            let front = "scanner "@ + scanner;
            assert(said.take(front.len() as int) =~= front);
            assert(said.skip(said.len() - words.len()) =~= words);
        },
        _ => {},
    }
}

/// Which answers are taken: a capability document with success, or none; a collection with
/// success alone; a deletion also where nothing was there to delete; a registration where it
/// says that something was created, and where. Anything else that came back is a refusal with
/// its status, and nothing that came back is silence.
pub proof fn law_an_answer_counts_by_its_status(
    device: DeviceView,
    uri: Seq<char>,
    name: Seq<char>,
    answer: Answer,
)
    ensures
        match answer {
            Err(source) => {
                &&& limits_of(device, answer) is Err && limits_of(device, answer)->Err_0
                    is Unreachable
                &&& listed_of(device, answer) is Err && listed_of(device, answer)->Err_0
                    is Unreachable
                &&& removed_of(device, uri, answer) is Err && removed_of(
                    device,
                    uri,
                    answer,
                )->Err_0 is Unreachable
                &&& created_of(device, name, answer) is Err && created_of(
                    device,
                    name,
                    answer,
                )->Err_0 is Unreachable
            },
            Ok(r) => {
                &&& removed_of(device, uri, answer) is Ok <==> r.status == 200 || r.status == 204
                    || r.status == 404
                &&& limits_of(device, answer) == Ok::<Option<Option<u32>>, WalkupErrorView>(None)
                    <==> r.status == 404
                &&& limits_of(device, answer) is Ok ==> r.status == 200 || r.status == 404
                &&& r.status == 200 ==> (limits_of(device, answer) is Ok <==> capabilities_of(
                    xml_events(r.body),
                ) is Ok)
                &&& listed_of(device, answer) is Ok <==> r.status == 200 && destinations_of(
                    xml_events(r.body),
                ) is Ok
                &&& created_of(device, name, answer) is Ok <==> r.status == 201 && header_of(
                    r.headers,
                    "Location"@,
                ) is Some
                &&& r.status == 201 && header_of(r.headers, "Location"@) is Some ==> created_of(
                    device,
                    name,
                    answer,
                ) == Ok::<Seq<char>, WalkupErrorView>(header_of(r.headers, "Location"@)->Some_0)
                &&& removed_of(device, uri, answer) is Err ==> (removed_of(
                    device,
                    uri,
                    answer,
                )->Err_0 matches WalkupErrorView::Refused { device: d, rejection, .. } && d
                    == device && rejection.number() == r.status)
                &&& r.status != 201 ==> (created_of(
                    device,
                    name,
                    answer,
                )->Err_0 matches WalkupErrorView::Refused { device: d, rejection, .. } && d
                    == device && rejection.number() == r.status)
            },
        },
{
    let a = seq![OK, NO_CONTENT, NOT_FOUND];
    let b = seq![OK, NOT_FOUND];
    let c = seq![OK];
    let d = seq![CREATED];
    assert(a[0] == 200 && a[1] == 204 && a[2] == 404);
    assert(b[0] == 200 && b[1] == 404);
    assert(c[0] == 200);
    assert(d[0] == 201);
}

/// What is asked for: documents are fetched, an entry is deleted by its URI, and a name is
/// posted to the collection that is listed, as XML.
pub proof fn law_requests_are_what_they_ask_for(uri: Seq<char>, name: Seq<char>)
    ensures
        caps_request().method == Method::Get && caps_request().body.len() == 0,
        list_request().method == Method::Get && list_request().body.len() == 0,
        delete_request(uri).method == Method::Delete && delete_request(uri).target == uri
            && delete_request(uri).body.len() == 0,
        post_request(name).method == Method::Post && post_request(name).target
            == list_request().target && post_request(name).content_type == Some("text/xml"@)
            && post_request(name).body == encode_utf8(document_text(name)),
        caps_request().target != list_request().target,
{
    reveal_strlit("/WalkupScanToComp/WalkupScanToCompCaps");
    reveal_strlit("/WalkupScanToComp/WalkupScanToCompDestinations");
    assert(CAPS_PATH@.len() != DESTINATIONS_PATH@.len());
}

/// The value of a header is that of the first one with its name, capitals or not; there is
/// none where no header has the name.
pub proof fn law_the_first_header_counts(
    headers: Seq<(Seq<char>, Seq<char>)>,
    name: Seq<char>,
    i: int,
)
    ensures
        0 <= i < headers.len() && lower(headers[i].0) == lower(name) && (forall|j: int|
            0 <= j < i ==> lower((#[trigger] headers[j]).0) != lower(name)) ==> header_of(
            headers,
            name,
        ) == Some(headers[i].1),
        (forall|j: int| 0 <= j < headers.len() ==> lower((#[trigger] headers[j]).0) != lower(name))
            ==> header_of(headers, name) is None,
    decreases headers.len(),
{
    if headers.len() > 0 {
        let less = headers.drop_first();
        law_the_first_header_counts(less, name, i - 1);
        assert forall|j: int| 0 <= j < less.len() implies #[trigger] less[j] == headers[j + 1] by {}
        if 0 < i < headers.len() {
            assert(less[i - 1] == headers[i]);
            if lower(headers[i].0) == lower(name) && (forall|j: int|
                0 <= j < i ==> lower((#[trigger] headers[j]).0) != lower(name)) {
                assert(lower(headers[0].0) != lower(name));
                assert forall|j: int| 0 <= j < i - 1 implies lower((#[trigger] less[j]).0) != lower(
                    name,
                ) by {
                    let k: int = j + 1;
                    assert(lower(headers[k].0) != lower(name));
                }
            }
        }
        if forall|j: int|
            0 <= j < headers.len() ==> lower((#[trigger] headers[j]).0) != lower(name) {
            assert(lower(headers[0].0) != lower(name));
            assert forall|j: int| 0 <= j < less.len() implies lower((#[trigger] less[j]).0) != lower(
                name,
            ) by {
                let k: int = j + 1;
                assert(lower(headers[k].0) != lower(name));
            }
        }
    }
}

/// A host is called by the first label of its hostname, without the white space around it,
/// whatever its domain; one without a name has a name all the same.
pub proof fn law_a_panel_shows_the_first_label(label: Seq<char>, domain: Seq<char>)
    requires
        !label.contains('.'),
    ensures
        panel_name_of(label + seq!['.'] + domain) == panel_name_of(label),
        trim(label).len() > 0 ==> panel_name_of(label) == trim(label),
        trim(label).len() == 0 ==> panel_name_of(label) == "scanbus"@,
        panel_name_of(label).len() > 0,
{
    reveal_strlit("scanbus");
    text::lemma_split_first(label, '.', domain);
    text::lemma_split_none(label, '.');
    assert(before(label, '.') =~= label);
    assert(before(label + seq!['.'] + domain, '.') =~= label);
}

/// Runs of text, one after the other.
pub open spec fn all_runs(runs: Seq<Seq<char>>) -> Seq<char>
    decreases runs.len(),
{
    if runs.len() == 0 {
        seq![]
    } else {
        runs[0] + all_runs(runs.drop_first())
    }
}

/// The events of an element with nothing but text in it.
pub open spec fn element(name: Seq<u8>, runs: Seq<Seq<char>>) -> Seq<XmlEventView> {
    seq![XmlEventView::Start(name)] + runs.map_values(
        |run: Seq<char>| XmlEventView::Text(Ok(run)),
    ) + seq![XmlEventView::End(name)]
}

/// Whether no event is an error, nor a tag of the limit's element.
pub open spec fn says_no_limit(events: Seq<XmlEventView>) -> bool {
    forall|i: int|
        0 <= i < events.len() ==> !((#[trigger] events[i]) is Malformed) && events[i]
            != XmlEventView::Start(limit_name()) && events[i] != XmlEventView::End(limit_name())
}

proof fn lemma_no_limit(s: CapsState, events: Seq<XmlEventView>, rest: Seq<XmlEventView>)
    requires
        !s.open && says_no_limit(events),
    ensures
        rest.len() == 0 ==> caps_from(s, events + rest) == Ok::<Option<u32>, Seq<char>>(s.limit),
        rest.len() > 0 && rest[0] == XmlEventView::Start(limit_name()) ==> caps_from(
            s,
            events + rest,
        ) == caps_from(CapsState { open: true, value: seq![], limit: s.limit }, rest.drop_first()),
    decreases events.len(),
{
    if events.len() == 0 {
        assert(events + rest =~= rest);
    } else {
        let less = events.drop_first();
        assert((events + rest).drop_first() =~= less + rest);
        assert(events[0] == (events + rest)[0]);
        assert forall|i: int| 0 <= i < less.len() implies !((#[trigger] less[i]) is Malformed)
            && less[i] != XmlEventView::Start(limit_name()) && less[i] != XmlEventView::End(
            limit_name(),
        ) by {
            assert(less[i] == events[i + 1]);
        }
        lemma_no_limit(caps_step(s, events[0])->Ok_0, less, rest);
    }
}

proof fn lemma_limit_runs(s: CapsState, runs: Seq<Seq<char>>, rest: Seq<XmlEventView>)
    requires
        s.open,
    ensures
        caps_from(
            s,
            runs.map_values(|run: Seq<char>| XmlEventView::Text(Ok(run))) + rest,
        ) == caps_from(CapsState { value: s.value + all_runs(runs), ..s }, rest),
    decreases runs.len(),
{
    let events = runs.map_values(|run: Seq<char>| XmlEventView::Text(Ok(run)));
    if runs.len() == 0 {
        assert(events + rest =~= rest);
        assert(s.value + all_runs(runs) =~= s.value);
    } else {
        let less = runs.drop_first();
        assert((events + rest).drop_first() =~= less.map_values(
            |run: Seq<char>| XmlEventView::Text(Ok(run)),
        ) + rest);
        let next = CapsState { value: s.value + runs[0], ..s };
        lemma_limit_runs(next, less, rest);
        assert(next.value + all_runs(less) =~= s.value + all_runs(runs));
    }
}

/// How many destinations a device holds is the number in the element for it, however its text
/// is cut up and whatever stands around the element; text that is no number is an error, and a
/// document without the element says nothing.
pub proof fn law_a_limit_is_what_its_element_says(
    front: Seq<XmlEventView>,
    runs: Seq<Seq<char>>,
    back: Seq<XmlEventView>,
)
    requires
        says_no_limit(front) && says_no_limit(back),
    ensures
        ({
            let said = capabilities_of(
                front + element(encode_utf8("MaxNetworkDestinations"@), runs) + back,
            );
            match parse_unsigned(trim(all_runs(runs)), u32::MAX as nat) {
                Some(n) => said == Ok::<Option<u32>, Seq<char>>(Some(n as u32)),
                None => said is Err,
            }
        }),
        capabilities_of(front) == Ok::<Option<u32>, Seq<char>>(None),
{
    let start = CapsState { open: false, value: seq![], limit: None };
    let name = limit_name();
    let texts = runs.map_values(|run: Seq<char>| XmlEventView::Text(Ok(run)));
    let closing = seq![XmlEventView::End(name)] + back;
    let rest = seq![XmlEventView::Start(name)] + (texts + closing);
    assert(front + element(name, runs) + back =~= front + rest);
    lemma_no_limit(start, front, rest);
    assert(rest.drop_first() =~= texts + closing);
    let open = CapsState { open: true, value: seq![], limit: None };
    lemma_limit_runs(open, runs, closing);
    assert(open.value + all_runs(runs) =~= all_runs(runs));
    assert(closing.drop_first() =~= back);
    match parse_unsigned(trim(all_runs(runs)), u32::MAX as nat) {
        Some(n) => {
            lemma_no_limit(
                CapsState { open: false, value: all_runs(runs), limit: Some(n as u32) },
                back,
                seq![],
            );
            assert(back + Seq::<XmlEventView>::empty() =~= back);
        },
        None => {},
    }
    lemma_no_limit(start, front, seq![]);
    assert(front + Seq::<XmlEventView>::empty() =~= front);
}

/// A document that is not well formed is an error, wherever it stops being so.
pub proof fn law_a_malformed_document_is_an_error(
    front: Seq<XmlEventView>,
    error: Seq<char>,
    back: Seq<XmlEventView>,
)
    ensures
        capabilities_of(front + seq![XmlEventView::Malformed(error)] + back) is Err,
        destinations_of(front + seq![XmlEventView::Malformed(error)] + back) is Err,
{
    lemma_malformed_caps(CapsState { open: false, value: seq![], limit: None }, front, error, back);
    lemma_malformed_dest(DestState { entry: None, field: None, out: seq![] }, front, error, back);
}

proof fn lemma_malformed_caps(
    s: CapsState,
    front: Seq<XmlEventView>,
    error: Seq<char>,
    back: Seq<XmlEventView>,
)
    ensures
        caps_from(s, front + seq![XmlEventView::Malformed(error)] + back) is Err,
    decreases front.len(),
{
    let all = front + seq![XmlEventView::Malformed(error)] + back;
    if front.len() > 0 {
        assert(all.drop_first() =~= front.drop_first() + seq![XmlEventView::Malformed(error)]
            + back);
        match caps_step(s, all[0]) {
            Ok(next) => {
                lemma_malformed_caps(next, front.drop_first(), error, back);
            },
            Err(_) => {},
        }
    }
}

proof fn lemma_malformed_dest(
    s: DestState,
    front: Seq<XmlEventView>,
    error: Seq<char>,
    back: Seq<XmlEventView>,
)
    ensures
        dest_from(s, front + seq![XmlEventView::Malformed(error)] + back) is Err,
    decreases front.len(),
{
    let all = front + seq![XmlEventView::Malformed(error)] + back;
    if front.len() > 0 {
        assert(all.drop_first() =~= front.drop_first() + seq![XmlEventView::Malformed(error)]
            + back);
        match dest_step(s, all[0]) {
            Ok(next) => {
                lemma_malformed_dest(next, front.drop_first(), error, back);
            },
            Err(_) => {},
        }
    }
}

/// The texts in an entry's element: of its URI, of an element between, and of its hostname.
pub struct EntryTexts {
    pub uri: Seq<Seq<char>>,
    pub between: Seq<Seq<char>>,
    pub hostname: Seq<Seq<char>>,
}

/// The events of a collection, with an element of another name between the two of each entry.
pub open spec fn collection(entries: Seq<EntryTexts>, other: Seq<u8>) -> Seq<XmlEventView>
    decreases entries.len(),
{
    if entries.len() == 0 {
        seq![]
    } else {
        let e = entries[0];
        seq![XmlEventView::Start(encode_utf8("WalkupScanToCompDestination"@))] + element(
            encode_utf8("ResourceURI"@),
            e.uri,
        ) + element(other, e.between) + element(encode_utf8("Hostname"@), e.hostname) + seq![
            XmlEventView::End(encode_utf8("WalkupScanToCompDestination"@)),
        ] + collection(entries.drop_first(), other)
    }
}

spec fn grown_by(value: Option<Seq<char>>, runs: Seq<Seq<char>>) -> Option<Seq<char>>
    decreases runs.len(),
{
    if runs.len() == 0 {
        value
    } else {
        grown_by(grown(value, runs[0]), runs.drop_first())
    }
}

proof fn lemma_grown_by(value: Option<Seq<char>>, runs: Seq<Seq<char>>)
    ensures
        trimmed_or_empty(grown_by(value, runs)) == match value {
            Some(s) => trim(s + all_runs(runs)),
            None => trim(all_runs(runs)),
        },
    decreases runs.len(),
{
    if runs.len() == 0 {
        match value {
            Some(s) => {
                assert(s + all_runs(runs) =~= s);
            },
            None => {
                assert(trim(all_runs(runs)) =~= seq![]);
            },
        }
    } else {
        lemma_grown_by(grown(value, runs[0]), runs.drop_first());
        match value {
            Some(s) => {
                assert(s + runs[0] + all_runs(runs.drop_first()) =~= s + all_runs(runs));
            },
            None => {},
        }
    }
}

proof fn lemma_field_runs(
    s: DestState,
    entry: (Option<Seq<char>>, Option<Seq<char>>),
    runs: Seq<Seq<char>>,
    rest: Seq<XmlEventView>,
)
    requires
        s.entry == Some(entry),
    ensures
        ({
            let texts = runs.map_values(|run: Seq<char>| XmlEventView::Text(Ok(run)));
            dest_from(s, texts + rest) == dest_from(
                DestState {
                    entry: match s.field {
                        Some(Field::Uri) => Some((grown_by(entry.0, runs), entry.1)),
                        Some(Field::Hostname) => Some((entry.0, grown_by(entry.1, runs))),
                        None => s.entry,
                    },
                    ..s
                },
                rest,
            )
        }),
    decreases runs.len(),
{
    let texts = runs.map_values(|run: Seq<char>| XmlEventView::Text(Ok(run)));
    if runs.len() == 0 {
        assert(texts + rest =~= rest);
    } else {
        let less = runs.drop_first();
        assert((texts + rest).drop_first() =~= less.map_values(
            |run: Seq<char>| XmlEventView::Text(Ok(run)),
        ) + rest);
        assert((texts + rest)[0] == XmlEventView::Text(Ok::<Seq<char>, Seq<char>>(runs[0])));
        let after = match s.field {
            Some(field) => with_run(entry, field, runs[0]),
            None => entry,
        };
        lemma_field_runs(DestState { entry: Some(after), ..s }, after, less, rest);
    }
}

proof fn lemma_field_element(
    s: DestState,
    entry: (Option<Seq<char>>, Option<Seq<char>>),
    name: Seq<u8>,
    runs: Seq<Seq<char>>,
    rest: Seq<XmlEventView>,
)
    requires
        s.entry == Some(entry) && name != entry_name(),
    ensures
        dest_from(s, element(name, runs) + rest) == dest_from(
            DestState {
                entry: if name == encode_utf8("ResourceURI"@) {
                    Some((grown_by(entry.0, runs), entry.1))
                } else if name == encode_utf8("Hostname"@) {
                    Some((entry.0, grown_by(entry.1, runs)))
                } else {
                    s.entry
                },
                field: None,
                out: s.out,
            },
            rest,
        ),
{
    let texts = runs.map_values(|run: Seq<char>| XmlEventView::Text(Ok(run)));
    let closing = seq![XmlEventView::End(name)] + rest;
    let all = element(name, runs) + rest;
    assert(all[0] == XmlEventView::Start(name));
    assert(all.drop_first() =~= texts + closing);
    let open = dest_step(s, all[0])->Ok_0;
    lemma_field_runs(open, entry, runs, closing);
    assert(closing.drop_first() =~= rest);
}

proof fn lemma_element_names()
    ensures
        encode_utf8("ResourceURI"@) != entry_name(),
        encode_utf8("Hostname"@) != entry_name(),
        encode_utf8("Hostname"@) != encode_utf8("ResourceURI"@),
{
    reveal_strlit("ResourceURI");
    reveal_strlit("Hostname");
    reveal_strlit("WalkupScanToCompDestination");
    vstd::utf8::encode_utf8_decode_utf8("ResourceURI"@);
    vstd::utf8::encode_utf8_decode_utf8("Hostname"@);
    vstd::utf8::encode_utf8_decode_utf8("WalkupScanToCompDestination"@);
    assert("ResourceURI"@.len() == 11 && "Hostname"@.len() == 8
        && "WalkupScanToCompDestination"@.len() == 27);
}

#[verifier::rlimit(40)]
proof fn lemma_collection(
    out: Seq<DestinationView>,
    entries: Seq<EntryTexts>,
    other: Seq<u8>,
    rest: Seq<XmlEventView>,
)
    requires
        other != entry_name() && other != encode_utf8("ResourceURI"@) && other != encode_utf8(
            "Hostname"@,
        ),
        forall|i: int| 0 <= i < entries.len() ==> trim(all_runs((#[trigger] entries[i]).uri)).len() > 0,
    ensures
        dest_from(
            DestState { entry: None, field: None, out },
            collection(entries, other) + rest,
        ) == dest_from(
            DestState {
                entry: None,
                field: None,
                out: out + entries.map_values(
                    |e: EntryTexts|
                        DestinationView {
                            uri: trim(all_runs(e.uri)),
                            hostname: trim(all_runs(e.hostname)),
                        },
                ),
            },
            rest,
        ),
    decreases entries.len(),
{
    let said = |e: EntryTexts|
        DestinationView { uri: trim(all_runs(e.uri)), hostname: trim(all_runs(e.hostname)) };
    if entries.len() == 0 {
        assert(collection(entries, other) + rest =~= rest);
        assert(out + entries.map_values(said) =~= out);
    } else {
        lemma_element_names();
        let e = entries[0];
        assert(trim(all_runs(entries[0].uri)).len() > 0);
        let more = entries.drop_first();
        let tag = encode_utf8("WalkupScanToCompDestination"@);
        let behind = collection(more, other) + rest;
        let r4 = seq![XmlEventView::End(tag)] + behind;
        let r3 = element(encode_utf8("Hostname"@), e.hostname) + r4;
        let r2 = element(other, e.between) + r3;
        let r1 = element(encode_utf8("ResourceURI"@), e.uri) + r2;
        let all = collection(entries, other) + rest;
        assert(all =~= seq![XmlEventView::Start(tag)] + r1);
        assert(all.drop_first() =~= r1);
        let none = (None::<Seq<char>>, None::<Seq<char>>);
        let s1 = DestState { entry: Some(none), field: None, out };
        lemma_field_element(s1, none, encode_utf8("ResourceURI"@), e.uri, r2);
        let with_uri = (grown_by(None, e.uri), None::<Seq<char>>);
        let s2 = DestState { entry: Some(with_uri), field: None, out };
        lemma_field_element(s2, with_uri, other, e.between, r3);
        lemma_field_element(s2, with_uri, encode_utf8("Hostname"@), e.hostname, r4);
        let both = (grown_by(None, e.uri), grown_by(None, e.hostname));
        lemma_grown_by(None, e.uri);
        lemma_grown_by(None, e.hostname);
        assert(r4.drop_first() =~= behind);
        let closed = entry_closed(DestState { entry: Some(both), field: None, out });
        assert(closed.out =~= out.push(said(e)));
        assert forall|i: int| 0 <= i < more.len() implies trim(
            all_runs((#[trigger] more[i]).uri),
        ).len() > 0 by {
            assert(more[i] == entries[i + 1]);
        }
        lemma_collection(closed.out, more, other, rest);
        assert(closed.out + more.map_values(said) =~= out + entries.map_values(said));
    }
}

/// A collection is read as it is written: one entry for each element, in order, each with the
/// URI and the hostname in it, without white space around them, however their text is cut up
/// and whatever else the element says.
pub proof fn law_every_entry_with_a_uri_is_listed(entries: Seq<EntryTexts>, other: Seq<u8>)
    requires
        other != encode_utf8("WalkupScanToCompDestination"@) && other != encode_utf8(
            "ResourceURI"@,
        ) && other != encode_utf8("Hostname"@),
        forall|i: int| 0 <= i < entries.len() ==> trim(all_runs((#[trigger] entries[i]).uri)).len() > 0,
    ensures
        destinations_of(collection(entries, other)) == Ok::<Seq<DestinationView>, Seq<char>>(
            entries.map_values(
                |e: EntryTexts|
                    DestinationView {
                        uri: trim(all_runs(e.uri)),
                        hostname: trim(all_runs(e.hostname)),
                    },
            ),
        ),
{
    let none = Seq::<XmlEventView>::empty();
    let out = Seq::<DestinationView>::empty();
    lemma_collection(out, entries, other, none);
    assert(collection(entries, other) + none =~= collection(entries, other));
    let said = entries.map_values(
        |e: EntryTexts|
            DestinationView {
                uri: trim(all_runs(e.uri)),
                hostname: trim(all_runs(e.hostname)),
            },
    );
    assert(out + said =~= said);
}

/// A host's own entries are those under its name, capitals or not; an entry without a
/// hostname is nobody's.
pub proof fn law_an_entry_belongs_to_its_hostname(d: DestinationView, name: Seq<char>)
    ensures
        owned_by(d, name) ==> lower(d.hostname) == lower(name) && name.len() > 0,
        name.len() > 0 && lower(d.hostname) == lower(name) ==> owned_by(d, name),
{
    assert(lower(d.hostname).len() == d.hostname.len());
    assert(lower(name).len() == name.len());
}

/// This host's own entries are picked out one by one and stay in order: those of two lists, one
/// behind the other, are those of the first and then those of the second.
pub proof fn law_own_entries_are_picked_one_by_one(
    a: Seq<DestinationView>,
    d: DestinationView,
    b: Seq<DestinationView>,
    name: Seq<char>,
)
    ensures
        own_entries(a + b, name) == own_entries(a, name) + own_entries(b, name),
        owned_by(d, name) ==> own_entries(seq![d], name) == seq![d],
        !owned_by(d, name) ==> own_entries(seq![d], name).len() == 0,
    decreases b.len(),
{
    let one = seq![d];
    assert(one.drop_last() =~= seq![]);
    assert(own_entries(one.drop_last(), name) =~= seq![]);
    if owned_by(d, name) {
        assert(own_entries(one, name) =~= seq![d]);
    }
    if b.len() == 0 {
        assert(a + b =~= a);
        assert(own_entries(a + b, name) =~= own_entries(a, name) + own_entries(b, name));
    } else {
        law_own_entries_are_picked_one_by_one(a, d, b.drop_last(), name);
        assert((a + b).drop_last() =~= a + b.drop_last());
        assert(own_entries(a + b, name) =~= own_entries(a, name) + own_entries(b, name));
    }
}

/// From request to request a registration keeps in mind what it learned: the limit that the
/// capability document said, how many entries the collection listed, and which of them are its
/// own; and it registers only where the others leave room under that limit.
#[verifier::rlimit(40)]
pub proof fn law_a_registration_keeps_in_mind_what_it_learned(i: InstallView, answer: Answer)
    ensures
        turn_of(i, answer) matches TurnView::Ask(next, request) ==> match (i.stage, next.stage) {
            (StageView::Capabilities, StageView::Listing { limit }) => limits_of(i.device, answer)
                == Ok::<Option<Option<u32>>, WalkupErrorView>(Some(limit)) && request
                == list_request(),
            (
                StageView::Listing { limit },
                StageView::Sweeping { limit: known, occupied, mine, done },
            ) => known == limit && done == 0 && (listed_of(i.device, answer) matches Ok(entries)
                && occupied == entries.len() && mine == own_entries(entries, i.name)),
            (StageView::Listing { limit }, StageView::Posting { mine }) => mine.len() == 0 && (
            listed_of(i.device, answer) matches Ok(entries) && (limit matches Some(n)
                ==> entries.len() < n)),
            (
                StageView::Sweeping { limit, occupied, mine, done },
                StageView::Sweeping { limit: known, occupied: counted, mine: own, done: now },
            ) => known == limit && counted == occupied && own == mine && now == done + 1
                && request == delete_request(mine[now as int].uri),
            (
                StageView::Sweeping { limit, occupied, mine, done },
                StageView::Posting { mine: swept },
            ) => swept == mine && (limit matches Some(n) ==> occupied - mine.len() < n),
            _ => false,
        },
        turn_of(i, answer) matches TurnView::Done(Err(WalkupErrorView::Full { device, limit: n }))
            ==> device == i.device && match i.stage {
            StageView::Listing { limit } => limit == Some(n) && (listed_of(
                i.device,
                answer,
            ) matches Ok(entries) && entries.len() >= n),
            StageView::Sweeping { limit, occupied, mine, .. } => limit == Some(n) && occupied
                - mine.len() >= n,
            _ => false,
        },
        turn_of(i, answer) matches TurnView::Done(Ok(Some(r))) ==> (i.stage
            == (StageView::Posting { mine: r.swept }) && created_of(i.device, i.name, answer)
            == Ok::<Seq<char>, WalkupErrorView>(r.uri)),
        answer is Err ==> turn_of(i, answer) is Done,
{
    match i.stage {
        StageView::Listing { limit } => {
            lemma_collection_holds_own(i, answer);
        },
        _ => {},
    }
}

proof fn lemma_collection_holds_own(i: InstallView, answer: Answer)
    ensures
        listed_of(i.device, answer) matches Ok(entries) ==> own_entries(entries, i.name).len()
            <= entries.len(),
{
    match listed_of(i.device, answer) {
        Ok(entries) => {
            lemma_own_entries(entries, i.name);
        },
        Err(_) => {},
    }
}

/// A reference in a field reads as the text that it stands for: the character that it numbers,
/// or what XML predefines under its name; any other name is an error there. Where no field is
/// open, neither text nor references are looked at.
pub proof fn law_a_reference_reads_as_its_text(
    s: DestState,
    c: char,
    name: Seq<char>,
    other: Result<Seq<char>, Seq<char>>,
    content: Result<Seq<char>, Seq<char>>,
    character: Result<Option<char>, Seq<char>>,
)
    ensures
        dest_step(s, XmlEventView::Reference { character: Ok(Some(c)), name: other }) == dest_step(
            s,
            XmlEventView::Text(Ok(seq![c])),
        ),
        predefined(name) matches Some(t) ==> dest_step(
            s,
            XmlEventView::Reference { character: Ok(None), name: Ok(name) },
        ) == dest_step(s, XmlEventView::Text(Ok(t))),
        predefined(name) is None && s.entry is Some && s.field is Some ==> dest_step(
            s,
            XmlEventView::Reference { character: Ok(None), name: Ok(name) },
        ) is Err,
        s.entry is None || s.field is None ==> dest_step(s, XmlEventView::Text(content)) == Ok::<
            DestState,
            Seq<char>,
        >(s) && dest_step(s, XmlEventView::Reference { character, name: other }) == Ok::<
            DestState,
            Seq<char>,
        >(s),
        s.entry is Some && s.field is Some && content is Err ==> dest_step(
            s,
            XmlEventView::Text(content),
        ) is Err,
{
}

} // verus!
