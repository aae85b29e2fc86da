//! The UDP/54925 datagram: what the device sends when a panel entry is chosen.
//!
//! Four binary bytes, then a text payload:
//!
//! ```text
//! byte 0   id
//! byte 1   length >> 8
//! byte 2   length            the payload's length in bytes
//! byte 3   code
//! byte 4.. payload           in the grammar of the registration string
//! ```
//!
//! A panel key press is id 1, code 1. The other pairs are commands the vendor's CLI posts
//! to its own daemon through the same socket; they are recognised and declined. The device
//! waits for no reply.
use vstd::prelude::*;
use vstd::slice::slice_subrange;
use vstd::utf8::{decode_utf8, encode_utf8, valid_utf8};

use crate::net::{parse_ipv4, Ipv4Addr};
use crate::skey::fields::{
    distinct, field, field_of, law_field_order_does_not_matter, law_other_fields_change_nothing,
    plain, render,
};
use crate::skey::register::{function_of, law_panel_numberings_are_injective, Function};
use crate::text;
use crate::text::{decimal, hex_byte, parse_unsigned, quoted};

verus! {

/// The four binary bytes in front of every payload.
pub const HEADER_LEN: usize = 4;

/// The id of a panel key press.
pub const KEY_PRESS_ID: u8 = 0x01;

/// The code of a panel key press.
pub const KEY_PRESS_CODE: u8 = 0x01;

/// The id shared by every command the vendor CLI posts to its own daemon.
pub const INTERNAL_ID: u8 = 0x80;

/// Why a datagram is not an event.
#[derive(Debug, Clone, PartialEq, Eq)]
pub enum EventError {
    /// Fewer bytes than the header needs.
    TooShort(usize),
    /// The declared payload length is not the payload's length.
    LengthMismatch { declared: usize, actual: usize },
    /// A NUL inside the payload.
    EmbeddedNul,
    /// The payload is not text.
    NotUtf8,
    /// An id and code that name no frame.
    UnknownFrame { id: u8, code: u8 },
    /// A key press with a field missing.
    MissingField(&'static str),
    /// A key press with a field that is present and wrong.
    BadField { field: &'static str, value: String },
}

/// What an [`EventError`] says.
pub enum EventErrorView {
    TooShort(nat),
    LengthMismatch { declared: nat, actual: nat },
    EmbeddedNul,
    NotUtf8,
    UnknownFrame { id: u8, code: u8 },
    MissingField(Seq<char>),
    BadField { field: Seq<char>, value: Seq<char> },
}

impl View for EventError {
    type V = EventErrorView;

    open spec fn view(&self) -> EventErrorView {
        match *self {
            EventError::TooShort(len) => EventErrorView::TooShort(len as nat),
            EventError::LengthMismatch { declared, actual } => EventErrorView::LengthMismatch {
                declared: declared as nat,
                actual: actual as nat,
            },
            EventError::EmbeddedNul => EventErrorView::EmbeddedNul,
            EventError::NotUtf8 => EventErrorView::NotUtf8,
            EventError::UnknownFrame { id, code } => EventErrorView::UnknownFrame { id, code },
            EventError::MissingField(name) => EventErrorView::MissingField(name@),
            EventError::BadField { field, value } => EventErrorView::BadField {
                field: field@,
                value: value@,
            },
        }
    }
}

/// The sentence an error is reported with.
pub open spec fn event_error_text(e: EventErrorView) -> Seq<char> {
    match e {
        EventErrorView::TooShort(len) => "datagram is "@ + decimal(len)
            + " bytes; the skey header alone is 4"@,
        EventErrorView::LengthMismatch { declared, actual } => "datagram header declares a "@
            + decimal(declared) + "-byte payload, "@ + decimal(actual) + " bytes follow"@,
        EventErrorView::EmbeddedNul => "skey payload contains a NUL"@,
        EventErrorView::NotUtf8 => "skey payload is not UTF-8"@,
        EventErrorView::UnknownFrame { id, code } => "unknown skey frame: id "@ + hex_byte(id)
            + ", code "@ + hex_byte(code),
        EventErrorView::MissingField(name) => "key press datagram has no "@ + name + "= field"@,
        EventErrorView::BadField { field, value } => "key press field "@ + field + "="@ + quoted(
            value,
        ) + " is not valid"@,
    }
}

impl EventError {
    /// The sentence this error is reported with.
    pub fn to_text(&self) -> (r: String)
        ensures
            r@ == event_error_text(self@),
    {
        match self {
            EventError::TooShort(len) => {
                let mut out = "datagram is ".to_owned();
                out.append(text::decimal_text(*len as u64).as_str());
                out.append(" bytes; the skey header alone is 4");
                out
            },
            EventError::LengthMismatch { declared, actual } => {
                let mut out = "datagram header declares a ".to_owned();
                out.append(text::decimal_text(*declared as u64).as_str());
                out.append("-byte payload, ");
                out.append(text::decimal_text(*actual as u64).as_str());
                out.append(" bytes follow");
                out
            },
            EventError::EmbeddedNul => "skey payload contains a NUL".to_owned(),
            EventError::NotUtf8 => "skey payload is not UTF-8".to_owned(),
            EventError::UnknownFrame { id, code } => {
                let mut out = "unknown skey frame: id ".to_owned();
                out.append(text::hex_text(*id).as_str());
                out.append(", code ");
                out.append(text::hex_text(*code).as_str());
                out
            },
            EventError::MissingField(name) => {
                let mut out = "key press datagram has no ".to_owned();
                out.append(name);
                out.append("= field");
                out
            },
            EventError::BadField { field, value } => {
                let mut out = "key press field ".to_owned();
                out.append(field);
                out.append("=");
                out.append(text::quote(value.as_str()).as_str());
                out.append(" is not valid");
                out
            },
        }
    }
}

// ---------------------------------------------------------------------------- framing

/// A datagram, after framing and before interpretation.
#[derive(Debug, Clone, PartialEq, Eq)]
pub struct Frame<'a> {
    pub id: u8,
    pub code: u8,
    pub payload: &'a str,
}

/// What a [`Frame`] says.
pub struct FrameView {
    pub id: u8,
    pub code: u8,
    pub payload: Seq<char>,
}

impl<'a> View for Frame<'a> {
    type V = FrameView;

    open spec fn view(&self) -> FrameView {
        FrameView { id: self.id, code: self.code, payload: self.payload@ }
    }
}

/// The payload length that a header declares.
pub open spec fn declared_len(datagram: Seq<u8>) -> nat {
    (datagram[1] * 256 + datagram[2]) as nat
}

/// The frame that a datagram holds. One NUL behind the declared payload is tolerated.
pub open spec fn frame_of(datagram: Seq<u8>) -> Result<FrameView, EventErrorView> {
    if datagram.len() < HEADER_LEN {
        Err(EventErrorView::TooShort(datagram.len()))
    } else {
        let declared = declared_len(datagram);
        let body = datagram.skip(HEADER_LEN as int);
        if body.len() == declared || (body.len() == declared + 1 && body[declared as int] == 0) {
            let payload = body.take(declared as int);
            if payload.contains(0) {
                Err(EventErrorView::EmbeddedNul)
            } else if !valid_utf8(payload) {
                Err(EventErrorView::NotUtf8)
            } else {
                Ok(FrameView { id: datagram[0], code: datagram[3], payload: decode_utf8(payload) })
            }
        } else {
            Err(EventErrorView::LengthMismatch { declared, actual: body.len() })
        }
    }
}

/// The datagram of a frame. A payload past two length bytes keeps the low sixteen bits of
/// its length.
pub open spec fn datagram_of(f: FrameView) -> Seq<u8> {
    let payload = encode_utf8(f.payload);
    let n = payload.len();
    seq![f.id, ((n / 256) % 256) as u8, (n % 256) as u8, f.code] + payload
}

impl<'a> Frame<'a> {
    /// Splits the header off a datagram and checks it against the payload.
    pub fn parse(datagram: &'a [u8]) -> (r: Result<Self, EventError>)
        ensures
            match frame_of(datagram@) {
                Ok(f) => r matches Ok(x) && x@ == f,
                Err(e) => r matches Err(x) && x@ == e,
            },
    {
        if datagram.len() < HEADER_LEN {
            return Err(EventError::TooShort(datagram.len()));
        }
        let declared: usize = datagram[1] as usize * 256 + datagram[2] as usize;
        let body = slice_subrange(datagram, HEADER_LEN, datagram.len());
        assert(body@ =~= datagram@.skip(HEADER_LEN as int));
        if !(body.len() == declared || (body.len() > declared && body.len() - declared == 1
            && body[declared] == 0)) {
            return Err(EventError::LengthMismatch { declared, actual: body.len() });
        }
        let payload = slice_subrange(body, 0, declared);
        assert(payload@ =~= body@.take(declared as int));
        let nul: usize = text::position_byte(payload, 0);
        proof {
            text::lemma_index_of(payload@, 0u8);
        }
        if nul < payload.len() {
            return Err(EventError::EmbeddedNul);
        }
        match text::utf8_text(payload) {
            Ok(s) => Ok(Frame { id: datagram[0], code: datagram[3], payload: s }),
            Err(_) => Err(EventError::NotUtf8),
        }
    }

    /// The datagram of this frame.
    pub fn to_datagram(&self) -> (r: Vec<u8>)
        ensures
            r@ == datagram_of(self@),
    {
        let payload = self.payload.as_bytes();
        let n: usize = payload.len();
        let mut out: Vec<u8> = Vec::new();
        out.push(self.id);
        out.push(((n / 256) % 256) as u8);
        out.push((n % 256) as u8);
        out.push(self.code);
        let mut copy = vstd::slice::slice_to_vec(payload);
        out.append(&mut copy);
        assert(out@ =~= datagram_of(self@));
        out
    }
}

// --------------------------------------------------------------------------- commands

/// A command the vendor CLI sends to its own daemon over this socket.
#[derive(Debug, Clone, Copy, PartialEq, Eq, Structural)]
pub enum InternalCommand {
    AddDevice,
    DeleteDevice,
    Terminate,
    ListDevices,
    Refresh,
}

impl InternalCommand {
    /// The command with a code.
    pub open spec fn of_code(code: u8) -> Option<InternalCommand> {
        if code == 0x80 {
            Some(InternalCommand::AddDevice)
        } else if code == 0x81 {
            Some(InternalCommand::DeleteDevice)
        } else if code == 0x82 {
            Some(InternalCommand::Terminate)
        } else if code == 0x83 {
            Some(InternalCommand::ListDevices)
        } else if code == 0x84 {
            Some(InternalCommand::Refresh)
        } else {
            None
        }
    }

    /// The command with a code.
    pub fn from_code(code: u8) -> (r: Option<InternalCommand>)
        ensures
            r == InternalCommand::of_code(code),
    {
        match code {
            0x80 => Some(InternalCommand::AddDevice),
            0x81 => Some(InternalCommand::DeleteDevice),
            0x82 => Some(InternalCommand::Terminate),
            0x83 => Some(InternalCommand::ListDevices),
            0x84 => Some(InternalCommand::Refresh),
            _ => None,
        }
    }
}

// -------------------------------------------------------------------------- key presses

/// A panel key press, as much of it as is useful.
#[derive(Debug, Clone, PartialEq, Eq)]
pub struct KeyPress {
    /// `USER=`: the destination name this host registered under.
    pub user: String,
    /// `FUNC=`: which panel entry was chosen.
    pub function: Function,
    /// `CLIENT=`: the address that the device says is its own.
    pub client: Ipv4Addr,
    /// `HOST=`: the address the device believes it is talking to.
    pub host: Option<String>,
    /// `APPNUM=` when present; redundant with `function`.
    pub appnum: Option<u8>,
    /// `DEVICE=`, else `NODENAME=`, else `IP=`.
    pub device: Option<String>,
}

/// What a [`KeyPress`] says.
pub struct KeyPressView {
    pub user: Seq<char>,
    pub function: Function,
    pub client: Ipv4Addr,
    pub host: Option<Seq<char>>,
    pub appnum: Option<u8>,
    pub device: Option<Seq<char>>,
}

/// The text in an option.
pub open spec fn text_in(o: Option<String>) -> Option<Seq<char>> {
    match o {
        Some(s) => Some(s@),
        None => None,
    }
}

impl View for KeyPress {
    type V = KeyPressView;

    open spec fn view(&self) -> KeyPressView {
        KeyPressView {
            user: self.user@,
            function: self.function,
            client: self.client,
            host: text_in(self.host),
            appnum: self.appnum,
            device: text_in(self.device),
        }
    }
}

/// The device's name: the first of three fields that is there.
pub open spec fn device_of(payload: Seq<char>) -> Option<Seq<char>> {
    match field_of(payload, "DEVICE"@) {
        Some(v) => Some(v),
        None => match field_of(payload, "NODENAME"@) {
            Some(v) => Some(v),
            None => field_of(payload, "IP"@),
        },
    }
}

/// The number of an `APPNUM=` field, where there is one.
pub open spec fn appnum_of(payload: Seq<char>) -> Result<Option<u8>, EventErrorView> {
    match field_of(payload, "APPNUM"@) {
        None => Ok(None),
        Some(v) => match parse_unsigned(v, u8::MAX as nat) {
            Some(n) => Ok(Some(n as u8)),
            None => Err(EventErrorView::BadField { field: "APPNUM"@, value: v }),
        },
    }
}

/// The key press that a payload says, or the first thing that is wrong with it.
pub open spec fn key_press_of(payload: Seq<char>) -> Result<KeyPressView, EventErrorView> {
    match field_of(payload, "TYPE"@) {
        None => Err(EventErrorView::MissingField("TYPE"@)),
        Some(kind) => if kind != "BR"@ {
            Err(EventErrorView::BadField { field: "TYPE"@, value: kind })
        } else {
            match field_of(payload, "FUNC"@) {
                None => Err(EventErrorView::MissingField("FUNC"@)),
                Some(func) => match function_of(func) {
                    None => Err(EventErrorView::BadField { field: "FUNC"@, value: func }),
                    Some(function) => press_behind(payload, function),
                },
            }
        },
    }
}

/// The part of [`key_press_of`] behind `TYPE` and `FUNC`.
pub open spec fn press_behind(payload: Seq<char>, function: Function) -> Result<
    KeyPressView,
    EventErrorView,
> {
    match field_of(payload, "CLIENT"@) {
        None => Err(EventErrorView::MissingField("CLIENT"@)),
        Some(at) => match parse_ipv4(at) {
            None => Err(EventErrorView::BadField { field: "CLIENT"@, value: at }),
            Some(client) => match appnum_of(payload) {
                Err(e) => Err(e),
                Ok(appnum) => match field_of(payload, "USER"@) {
                    None => Err(EventErrorView::MissingField("USER"@)),
                    Some(user) => Ok(
                        KeyPressView {
                            user,
                            function,
                            client,
                            host: field_of(payload, "HOST"@),
                            appnum,
                            device: device_of(payload),
                        },
                    ),
                },
            },
        },
    }
}

fn bad(name: &'static str, found: &str) -> (r: EventError)
    ensures
        r@ == (EventErrorView::BadField { field: name@, value: found@ }),
{
    EventError::BadField { field: name, value: found.to_owned() }
}

fn owned_field(payload: &str, key: &str) -> (r: Option<String>)
    ensures
        text_in(r) == field_of(payload@, key@),
{
    match field(payload, key) {
        Some(v) => Some(v.to_owned()),
        None => None,
    }
}

impl KeyPress {
    /// The key press that a payload says. Field order is nothing to depend on, and fields
    /// without a use are ignored.
    pub fn parse(payload: &str) -> (r: Result<Self, EventError>)
        ensures
            match key_press_of(payload@) {
                Ok(p) => r matches Ok(x) && x@ == p,
                Err(e) => r matches Err(x) && x@ == e,
            },
    {
        let kind = match field(payload, "TYPE") {
            Some(v) => v,
            None => {
                return Err(EventError::MissingField("TYPE"));
            },
        };
        if !text::same(kind, "BR") {
            return Err(bad("TYPE", kind));
        }
        let func = match field(payload, "FUNC") {
            Some(v) => v,
            None => {
                return Err(EventError::MissingField("FUNC"));
            },
        };
        let function = match Function::from_token(func) {
            Some(f) => {
                proof {
                    law_panel_numberings_are_injective(f, Function::File);
                    law_panel_numberings_are_injective(f, Function::Image);
                    law_panel_numberings_are_injective(f, Function::Ocr);
                    law_panel_numberings_are_injective(f, Function::Email);
                }
                f
            },
            None => {
                assert(func@ != Function::File.token() && func@ != Function::Image.token() && func@
                    != Function::Ocr.token() && func@ != Function::Email.token());
                return Err(bad("FUNC", func));
            },
        };
        let at = match field(payload, "CLIENT") {
            Some(v) => v,
            None => {
                return Err(EventError::MissingField("CLIENT"));
            },
        };
        let client = match Ipv4Addr::parse(at) {
            Some(ip) => ip,
            None => {
                return Err(bad("CLIENT", at));
            },
        };
        let appnum: Option<u8> = match field(payload, "APPNUM") {
            Some(v) => match text::parse_number(v, 255) {
                Some(n) => Some(n as u8),
                None => {
                    return Err(bad("APPNUM", v));
                },
            },
            None => None,
        };
        let user = match field(payload, "USER") {
            Some(v) => v.to_owned(),
            None => {
                return Err(EventError::MissingField("USER"));
            },
        };
        let device = match owned_field(payload, "DEVICE") {
            Some(v) => Some(v),
            None => match owned_field(payload, "NODENAME") {
                Some(v) => Some(v),
                None => owned_field(payload, "IP"),
            },
        };
        Ok(
            KeyPress {
                user,
                function,
                client,
                host: owned_field(payload, "HOST"),
                appnum,
                device,
            },
        )
    }

    /// Whether `APPNUM=` agrees with `FUNC=`. `None` when the datagram carried no APPNUM.
    pub fn appnum_agrees(&self) -> (r: Option<bool>)
        ensures
            r == match self.appnum {
                Some(n) => Some(n == self.function.number()),
                None => None,
            },
    {
        match self.appnum {
            Some(n) => Some(n == self.function.appnum()),
            None => None,
        }
    }
}

// ----------------------------------------------------------------------------- events

/// Everything a datagram on this socket can turn out to be.
#[derive(Debug, Clone, PartialEq, Eq)]
pub enum Event {
    KeyPress(KeyPress),
    Internal(InternalCommand),
}

/// What an [`Event`] says.
pub enum EventView {
    KeyPress(KeyPressView),
    Internal(InternalCommand),
}

impl View for Event {
    type V = EventView;

    open spec fn view(&self) -> EventView {
        match *self {
            Event::KeyPress(press) => EventView::KeyPress(press@),
            Event::Internal(command) => EventView::Internal(command),
        }
    }
}

/// The event that a datagram says.
pub open spec fn event_of(datagram: Seq<u8>) -> Result<EventView, EventErrorView> {
    match frame_of(datagram) {
        Err(e) => Err(e),
        Ok(f) => if f.id == KEY_PRESS_ID && f.code == KEY_PRESS_CODE {
            match key_press_of(f.payload) {
                Err(e) => Err(e),
                Ok(press) => Ok(EventView::KeyPress(press)),
            }
        } else if f.id == INTERNAL_ID {
            match InternalCommand::of_code(f.code) {
                Some(command) => Ok(EventView::Internal(command)),
                None => Err(EventErrorView::UnknownFrame { id: f.id, code: f.code }),
            }
        } else {
            Err(EventErrorView::UnknownFrame { id: f.id, code: f.code })
        },
    }
}

impl Event {
    /// The event that a datagram says.
    pub fn parse(datagram: &[u8]) -> (r: Result<Self, EventError>)
        ensures
            match event_of(datagram@) {
                Ok(v) => r matches Ok(x) && x@ == v,
                Err(e) => r matches Err(x) && x@ == e,
            },
    {
        let frame = match Frame::parse(datagram) {
            Ok(f) => f,
            Err(e) => {
                return Err(e);
            },
        };
        if frame.id == KEY_PRESS_ID && frame.code == KEY_PRESS_CODE {
            match KeyPress::parse(frame.payload) {
                Ok(press) => Ok(Event::KeyPress(press)),
                Err(e) => Err(e),
            }
        } else if frame.id == INTERNAL_ID {
            match InternalCommand::from_code(frame.code) {
                Some(command) => Ok(Event::Internal(command)),
                None => Err(EventError::UnknownFrame { id: frame.id, code: frame.code }),
            }
        } else {
            Err(EventError::UnknownFrame { id: frame.id, code: frame.code })
        }
    }
}

// ------------------------------------------------------------------------------- laws

/// Text without a NUL character encodes without a NUL byte.
proof fn lemma_no_nul(s: Seq<char>)
    requires
        !s.contains('\0'),
    ensures
        !encode_utf8(s).contains(0),
    decreases s.len(),
{
    if s.len() == 0 {
        assert(encode_utf8(s) =~= seq![]);
    } else {
        let rest = s.drop_first();
        assert(!rest.contains('\0')) by {
            if rest.contains('\0') {
                let j = rest.index_of('\0');
                assert(s[j + 1] == '\0');
            }
        }
        lemma_no_nul(rest);
        let n = s[0] as u32;
        assert(s.contains(s[0]));
        if n == 0 {
            vstd::utf8::char_u32_cast(s[0], 0);
            vstd::utf8::char_u32_cast('\0', 0);
        }
        let head = vstd::utf8::encode_scalar(n);
        assert(n <= 0x7f && n != 0 ==> (n & 0x7f) as u8 != 0) by (bit_vector);
        assert(0xC0u8 | ((n >> 6) & 0x1F) as u8 != 0) by (bit_vector);
        assert(0xE0u8 | ((n >> 12) & 0x0F) as u8 != 0) by (bit_vector);
        assert(0xF0u8 | ((n >> 18) & 0x7) as u8 != 0) by (bit_vector);
        assert(0x80u8 | (n & 0x3F) as u8 != 0) by (bit_vector);
        assert(0x80u8 | ((n >> 6) & 0x3F) as u8 != 0) by (bit_vector);
        assert(0x80u8 | ((n >> 12) & 0x3F) as u8 != 0) by (bit_vector);
        let all = encode_utf8(s);
        assert(all =~= head + encode_utf8(rest));
        assert forall|i: int| 0 <= i < head.len() implies head[i] != 0 by {
            assert(i == 0 || i == 1 || i == 2 || i == 3);
        }
        if all.contains(0) {
            let j = all.index_of(0);
            if j < head.len() {
                assert(head[j] != 0);
            } else {
                assert(encode_utf8(rest)[j - head.len()] == 0);
            }
        }
    }
}

/// Parsing a frame's datagram gives the frame back, for every payload without a NUL whose
/// length the header can say.
pub proof fn law_frame_round_trips(f: FrameView)
    requires
        encode_utf8(f.payload).len() < 0x1_0000,
        !f.payload.contains('\0'),
    ensures
        frame_of(datagram_of(f)) == Ok::<FrameView, EventErrorView>(f),
{
    let d = datagram_of(f);
    let payload = encode_utf8(f.payload);
    assert(d.skip(4) =~= payload);
    assert(payload.take(payload.len() as int) =~= payload);
    lemma_no_nul(f.payload);
    vstd::utf8::encode_utf8_valid_utf8(f.payload);
    vstd::utf8::encode_utf8_decode_utf8(f.payload);
}

/// No strict prefix of a frame's datagram is an event.
pub proof fn law_datagram_prefixes_are_errors(f: FrameView, k: int)
    requires
        encode_utf8(f.payload).len() < 0x1_0000,
        0 <= k < datagram_of(f).len(),
    ensures
        frame_of(datagram_of(f).take(k)) is Err,
        event_of(datagram_of(f).take(k)) is Err,
{
    let d = datagram_of(f).take(k);
    if k >= 4 {
        assert(declared_len(d) == encode_utf8(f.payload).len());
        assert(d.skip(4).len() < declared_len(d));
    }
}

/// One NUL behind a frame's datagram changes nothing; any other byte there, and a second
/// NUL, is an error.
pub proof fn law_one_trailing_nul_is_tolerated(f: FrameView, b: u8, c: u8)
    requires
        encode_utf8(f.payload).len() < 0x1_0000,
        !f.payload.contains('\0'),
    ensures
        frame_of(datagram_of(f).push(0)) == Ok::<FrameView, EventErrorView>(f),
        b != 0 ==> frame_of(datagram_of(f).push(b)) is Err,
        frame_of(datagram_of(f).push(b).push(c)) is Err,
{
    law_frame_round_trips(f);
    let payload = encode_utf8(f.payload);
    let d = datagram_of(f).push(0);
    let e = datagram_of(f).push(b);
    assert(datagram_of(f).skip(4) =~= payload);
    assert(payload.take(payload.len() as int) =~= payload);
    assert(d.skip(4) =~= payload.push(0));
    assert(d.skip(4).take(payload.len() as int) =~= payload);
    assert(e.skip(4) =~= payload.push(b));
    assert(e.push(c).skip(4) =~= payload.push(b).push(c));
}

/// The fields of a payload that a key press is read from.
pub open spec fn is_read(key: Seq<char>) -> bool {
    ||| key == "TYPE"@
    ||| key == "FUNC"@
    ||| key == "CLIENT"@
    ||| key == "APPNUM"@
    ||| key == "USER"@
    ||| key == "HOST"@
    ||| key == "DEVICE"@
    ||| key == "NODENAME"@
    ||| key == "IP"@
}

/// The order of a payload's fields does not matter: where no name occurs twice, the same
/// fields in another order are the same key press, or wrong in the same way.
pub proof fn law_a_press_reads_the_same_in_any_order(
    a: Seq<(Seq<char>, Seq<char>)>,
    b: Seq<(Seq<char>, Seq<char>)>,
)
    requires
        plain(a),
        plain(b),
        distinct(a),
        distinct(b),
        a.to_multiset() == b.to_multiset(),
    ensures
        key_press_of(render(a)) == key_press_of(render(b)),
{
    assert forall|key: Seq<char>| #[trigger] field_of(render(a), key) == field_of(
        render(b),
        key,
    ) by {
        law_field_order_does_not_matter(a, b, key);
    }
}

/// A field that a key press has no use for changes nothing, wherever it stands.
pub proof fn law_unused_fields_are_ignored(
    fields: Seq<(Seq<char>, Seq<char>)>,
    at: int,
    other: (Seq<char>, Seq<char>),
)
    requires
        0 <= at <= fields.len(),
        plain(fields),
        plain(seq![other]),
        !is_read(other.0),
    ensures
        key_press_of(render(fields.insert(at, other))) == key_press_of(render(fields)),
{
    assert forall|key: Seq<char>| is_read(key) implies #[trigger] field_of(
        render(fields.insert(at, other)),
        key,
    ) == field_of(render(fields), key) by {
        law_other_fields_change_nothing(fields, at, other, key);
    }
}

/// A frame on the wire: its id, the length of its payload with the high octet first, its code,
/// and the payload.
pub proof fn law_a_frame_is_laid_out_so(f: FrameView, datagram: Seq<u8>)
    requires
        encode_utf8(f.payload).len() < 65536,
    ensures
        ({
            let d = datagram_of(f);
            let payload = encode_utf8(f.payload);
            &&& d.len() == 4 + payload.len()
            &&& d[0] == f.id && d[3] == f.code
            &&& d[1] * 256 + d[2] == payload.len()
            &&& d.skip(4) == payload
        }),
        frame_of(datagram) matches Ok(g) ==> datagram.len() >= 4 && g.id == datagram[0] && g.code
            == datagram[3] && (datagram.len() == 4 + datagram[1] * 256 + datagram[2]
            || datagram.len() == 5 + datagram[1] * 256 + datagram[2]) && datagram.skip(4).take(
            datagram[1] * 256 + datagram[2],
        ) == encode_utf8(g.payload),
{
    let d = datagram_of(f);
    assert(d.skip(4) =~= encode_utf8(f.payload));
    if datagram.len() >= 4 {
        let body = datagram.skip(4);
        let n: int = datagram[1] * 256 + datagram[2];
        if n <= body.len() && valid_utf8(body.take(n)) {
            vstd::utf8::decode_utf8_encode_utf8(body.take(n));
        }
    }
}

/// What a frame is: a key press where its id and code both are one, a command of this machine's
/// own where its id is 0x80 and its code one of five from there on, and nothing else.
pub proof fn law_a_frame_is_told_by_its_id_and_code(f: FrameView)
    requires
        encode_utf8(f.payload).len() < 0x1_0000,
        !f.payload.contains('\0'),
    ensures
        ({
            let event = event_of(datagram_of(f));
            &&& f.id == 1 && f.code == 1 ==> match key_press_of(f.payload) {
                Ok(press) => event == Ok::<EventView, EventErrorView>(EventView::KeyPress(press)),
                Err(e) => event == Err::<EventView, EventErrorView>(e),
            }
            &&& event is Ok && event->Ok_0 is KeyPress ==> f.id == 1 && f.code == 1
            &&& (event is Ok && event->Ok_0 is Internal) <==> f.id == 0x80 && 0x80 <= f.code
                <= 0x84
            &&& !(f.id == 1 && f.code == 1) && !(f.id == 0x80 && 0x80 <= f.code <= 0x84) ==> event
                == Err::<EventView, EventErrorView>(
                EventErrorView::UnknownFrame { id: f.id, code: f.code },
            )
        }),
{
    law_frame_round_trips(f);
}

/// A key press is what its fields say: it is one exactly where the type is Brother's, the
/// function is known, the client is an address, there is a user, and the number, if any, is
/// one; and each of its parts is the field of that name.
pub proof fn law_a_press_is_what_its_fields_say(payload: Seq<char>)
    ensures
        ({
            let said = |key: Seq<char>| field_of(payload, key);
            let read = key_press_of(payload);
            &&& read is Ok <==> said("TYPE"@) == Some("BR"@) && (said("FUNC"@) matches Some(f)
                && function_of(f) is Some) && (said("CLIENT"@) matches Some(c) && parse_ipv4(c)
                is Some) && said("USER"@) is Some && (said("APPNUM"@) matches Some(n)
                ==> parse_unsigned(n, 255) is Some)
            &&& read matches Ok(press) ==> {
                &&& said("USER"@) == Some(press.user)
                &&& said("FUNC"@) matches Some(f) && function_of(f) == Some(press.function)
                &&& said("CLIENT"@) matches Some(c) && parse_ipv4(c) == Some(press.client)
                &&& press.host == said("HOST"@)
                &&& press.appnum is None <==> said("APPNUM"@) is None
                &&& press.appnum matches Some(k) ==> (said("APPNUM"@) matches Some(n)
                    && parse_unsigned(n, 255) == Some(k as nat))
                &&& said("DEVICE"@) is Some ==> press.device == said("DEVICE"@)
                &&& said("DEVICE"@) is None && said("NODENAME"@) is Some ==> press.device == said(
                    "NODENAME"@,
                )
                &&& said("DEVICE"@) is None && said("NODENAME"@) is None ==> press.device == said(
                    "IP"@,
                )
            }
        }),
{
    match field_of(payload, "APPNUM"@) {
        Some(n) => {
            lemma_parsed_fits(n, 255);
        },
        None => {},
    }
}

proof fn lemma_parsed_fits(s: Seq<char>, max: nat)
    ensures
        parse_unsigned(s, max) matches Some(n) ==> n <= max,
{
}

/// An error is told with what was found, each thing in its place.
pub proof fn law_an_event_error_tells_what_was_found(e: EventErrorView)
    ensures
        ({
            let said = event_error_text(e);
            match e {
                EventErrorView::TooShort(len) => text::begins(said, "datagram is "@ + decimal(len)),
                EventErrorView::LengthMismatch { declared, actual } => text::begins(
                    said,
                    "datagram header declares a "@ + decimal(declared),
                ) && text::ends(said, decimal(actual) + " bytes follow"@),
                EventErrorView::UnknownFrame { id, code } => text::begins(
                    said,
                    "unknown skey frame: id "@ + hex_byte(id),
                ) && text::ends(said, ", code "@ + hex_byte(code)),
                EventErrorView::MissingField(name) => text::ends(said, name + "= field"@),
                EventErrorView::BadField { field, value } => text::begins(
                    said,
                    "key press field "@ + field + "="@,
                ) && text::ends(said, quoted(value) + " is not valid"@),
                _ => said.len() > 0,
            }
        }),
{
    let said = event_error_text(e);
    reveal_strlit("skey payload contains a NUL");
    reveal_strlit("skey payload is not UTF-8");
    match e {
        EventErrorView::TooShort(len) => {
            text::lemma_two_parts(
                "datagram is "@ + decimal(len),
                " bytes; the skey header alone is 4"@,
            );
        },
        EventErrorView::LengthMismatch { declared, actual } => {
            let a = "datagram header declares a "@ + decimal(declared);
            let b = "-byte payload, "@;
            let c = decimal(actual) + " bytes follow"@;
            text::lemma_two_parts(a, b + c);
            text::lemma_two_parts(a + b, c);
            assert(a + (b + c) =~= said && a + b + c =~= said);
        },
        EventErrorView::UnknownFrame { id, code } => {
            let a = "unknown skey frame: id "@ + hex_byte(id);
            let b = ", code "@ + hex_byte(code);
            text::lemma_two_parts(a, b);
            assert(a + b =~= said);
        },
        EventErrorView::MissingField(name) => {
            let a = "key press datagram has no "@;
            let b = name + "= field"@;
            text::lemma_two_parts(a, b);
            assert(a + b =~= said);
        },
        EventErrorView::BadField { field, value } => {
            let a = "key press field "@ + field + "="@;
            let b = quoted(value) + " is not valid"@;
            text::lemma_two_parts(a, b);
            assert(a + b =~= said);
        },
        _ => {},
    }
}

} // verus!
