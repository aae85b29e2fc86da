//! The registration string, and the `SetRequest` that carries it.
//!
//! Registering is how this host appears under *Scan to PC* on the panel. One registration
//! per function, each an SNMP `SetRequest` writing a `;`-delimited string to
//! [`REGISTRATION_OID`]:
//!
//! ```text
//! TYPE=BR;BUTTON=SCAN;USER="jean";FUNC=IMAGE;HOST=192.168.1.20:54925;APPNUM=1;DURATION=360;BRID=;
//! ```
//!
//! `DURATION` is a lease: the device drops the entry when it runs out, so a host that dies
//! stops appearing by itself. `BRID` is the panel password, which is never set.
use vstd::prelude::*;
use vstd::utf8::encode_utf8;

use crate::net::{
    ipv4_text, law_address_text_reads_back, law_nothing_else_reads_as_an_address, parse_ipv4, Ipv4Addr,
};
use crate::skey::fields::{
    field, field_of, law_fields_read_back, law_the_first_field_counts, lookup, plain, render,
    unquoted,
};
use crate::skey::snmp::{dotted, request_of, Message, Oid, PduKind};
use crate::text;
use crate::text::{decimal, is_alnum, parse_unsigned, quoted, split_once};
use crate::time::{Duration, NANOS_PER_SEC};

verus! {

/// Brother's private-enterprise OID for scan-key registration.
pub const REGISTRATION_OID: &'static str = "1.3.6.1.4.1.2435.2.3.9.2.11.1.1.0";

/// The port the device sends a panel event to. Fixed, well-known, one per host.
pub const LISTENER_PORT: u16 = 54925;

/// The seconds of the lease that is asked for.
pub const DEFAULT_DURATION_SECS: u64 = 360;

/// The longest destination name a device takes.
pub const MAX_USER_LEN: usize = 15;

/// What a panel entry does when it is chosen.
#[derive(Debug, Clone, Copy, PartialEq, Eq, PartialOrd, Ord, Hash, Structural)]
pub enum Function {
    File,
    Image,
    Ocr,
    Email,
}

impl Function {
    /// Every function, in `button_index` order.
    pub const ALL: [Function; 4] = [
        Function::File,
        Function::Image,
        Function::Ocr,
        Function::Email,
    ];

    /// The `FUNC=` token of an entry.
    pub open spec fn token(self) -> Seq<char> {
        match self {
            Function::File => "FILE"@,
            Function::Image => "IMAGE"@,
            Function::Ocr => "OCR"@,
            Function::Email => "EMAIL"@,
        }
    }

    /// The `APPNUM=` number of an entry.
    pub open spec fn number(self) -> u8 {
        match self {
            Function::Image => 1,
            Function::Email => 2,
            Function::Ocr => 3,
            Function::File => 5,
        }
    }

    /// The button index of an entry.
    pub open spec fn index(self) -> u32 {
        match self {
            Function::File => 0,
            Function::Image => 1,
            Function::Ocr => 2,
            Function::Email => 3,
        }
    }

    /// What the panel calls an entry.
    pub open spec fn label(self) -> Seq<char> {
        match self {
            Function::File => "Scan to File"@,
            Function::Image => "Scan to Image"@,
            Function::Ocr => "Scan to OCR"@,
            Function::Email => "Scan to E-Mail"@,
        }
    }

    /// The `FUNC=` token.
    pub fn as_str(self) -> (r: &'static str)
        ensures
            r@ == self.token(),
    {
        match self {
            Function::File => "FILE",
            Function::Image => "IMAGE",
            Function::Ocr => "OCR",
            Function::Email => "EMAIL",
        }
    }

    /// The `APPNUM=` number. Not an index: the values are 1, 3, 2, 5 and skip 4.
    pub fn appnum(self) -> (r: u8)
        ensures
            r == self.number(),
    {
        match self {
            Function::Image => 1,
            Function::Email => 2,
            Function::Ocr => 3,
            Function::File => 5,
        }
    }

    /// The scanbus button index.
    pub fn button_index(self) -> (r: u32)
        ensures
            r == self.index(),
    {
        match self {
            Function::File => 0,
            Function::Image => 1,
            Function::Ocr => 2,
            Function::Email => 3,
        }
    }

    /// What the panel calls this entry: the firmware's wording.
    pub fn device_label(self) -> (r: &'static str)
        ensures
            r@ == self.label(),
    {
        match self {
            Function::File => "Scan to File",
            Function::Image => "Scan to Image",
            Function::Ocr => "Scan to OCR",
            Function::Email => "Scan to E-Mail",
        }
    }

    /// The entry with a button index.
    pub fn from_button_index(index: u32) -> (r: Option<Function>)
        ensures
            match r {
                Some(f) => f.index() == index,
                None => forall|f: Function| f.index() != index,
            },
    {
        match index {
            0 => Some(Function::File),
            1 => Some(Function::Image),
            2 => Some(Function::Ocr),
            3 => Some(Function::Email),
            _ => None,
        }
    }

    /// The entry with an `APPNUM=` number.
    pub fn from_appnum(appnum: u8) -> (r: Option<Function>)
        ensures
            match r {
                Some(f) => f.number() == appnum,
                None => forall|f: Function| f.number() != appnum,
            },
    {
        match appnum {
            1 => Some(Function::Image),
            2 => Some(Function::Email),
            3 => Some(Function::Ocr),
            5 => Some(Function::File),
            _ => None,
        }
    }

    /// The entry with a `FUNC=` token.
    pub fn from_token(token: &str) -> (r: Option<Function>)
        ensures
            match r {
                Some(f) => f.token() == token@,
                None => forall|f: Function| f.token() != token@,
            },
    {
        if text::same(token, "FILE") {
            Some(Function::File)
        } else if text::same(token, "IMAGE") {
            Some(Function::Image)
        } else if text::same(token, "OCR") {
            Some(Function::Ocr)
        } else if text::same(token, "EMAIL") {
            Some(Function::Email)
        } else {
            assert forall|f: Function| f.token() != token@ by {
                match f {
                    Function::File => {},
                    Function::Image => {},
                    Function::Ocr => {},
                    Function::Email => {},
                }
            }
            None
        }
    }
}

/// Each of the three numberings tells the four entries apart.
pub proof fn law_panel_numberings_are_injective(f: Function, g: Function)
    ensures
        f.token() == g.token() <==> f == g,
        f.number() == g.number() <==> f == g,
        f.index() == g.index() <==> f == g,
{
    reveal_strlit("FILE");
    reveal_strlit("IMAGE");
    reveal_strlit("OCR");
    reveal_strlit("EMAIL");
    assert("FILE"@.len() == 4 && "IMAGE"@.len() == 5 && "OCR"@.len() == 3 && "EMAIL"@.len() == 5);
    assert("IMAGE"@[0] == 'I' && "EMAIL"@[0] == 'E');
}

// ----------------------------------------------------------------------------- errors

/// Everything that can be wrong about a registration, before it reaches the network.
#[derive(Debug, Clone, PartialEq, Eq)]
pub enum RegisterError {
    /// The `USER=` value would not survive the device's own limits.
    UserName { name: String, reason: &'static str },
    /// A `DURATION=` the device's field cannot express.
    Duration(u64),
    /// A field a registration string cannot do without.
    MissingField(&'static str),
    /// A field that is present and not what it has to be.
    BadField { field: &'static str, value: String },
}

/// What a [`RegisterError`] says.
pub enum RegisterErrorView {
    UserName { name: Seq<char>, reason: Seq<char> },
    Duration(u64),
    MissingField(Seq<char>),
    BadField { field: Seq<char>, value: Seq<char> },
}

impl View for RegisterError {
    type V = RegisterErrorView;

    open spec fn view(&self) -> RegisterErrorView {
        match *self {
            RegisterError::UserName { name, reason } => RegisterErrorView::UserName {
                name: name@,
                reason: reason@,
            },
            RegisterError::Duration(secs) => RegisterErrorView::Duration(secs),
            RegisterError::MissingField(name) => RegisterErrorView::MissingField(name@),
            RegisterError::BadField { field, value } => RegisterErrorView::BadField {
                field: field@,
                value: value@,
            },
        }
    }
}

/// The sentence an error is reported with.
pub open spec fn register_error_text(e: RegisterErrorView) -> Seq<char> {
    match e {
        RegisterErrorView::UserName { name, reason } => quoted(name)
            + " cannot be used as a Brother scan destination name: "@ + reason,
        RegisterErrorView::Duration(secs) => "a lease of "@ + decimal(secs as nat)
            + " s does not fit Brother's DURATION field (1..=4294967295)"@,
        RegisterErrorView::MissingField(name) => "registration string has no "@ + name
            + "= field"@,
        RegisterErrorView::BadField { field, value } => "registration field "@ + field + "="@
            + quoted(value) + " is not valid"@,
    }
}

impl RegisterError {
    /// The sentence this error is reported with.
    pub fn to_text(&self) -> (r: String)
        ensures
            r@ == register_error_text(self@),
    {
        match self {
            RegisterError::UserName { name, reason } => {
                let mut out = text::quote(name.as_str());
                out.append(" cannot be used as a Brother scan destination name: ");
                out.append(reason);
                out
            },
            RegisterError::Duration(secs) => {
                let mut out = "a lease of ".to_owned();
                out.append(text::decimal_text(*secs).as_str());
                out.append(" s does not fit Brother's DURATION field (1..=4294967295)");
                out
            },
            RegisterError::MissingField(name) => {
                let mut out = "registration string has no ".to_owned();
                out.append(name);
                out.append("= field");
                out
            },
            RegisterError::BadField { field, value } => {
                let mut out = "registration field ".to_owned();
                out.append(field);
                out.append("=");
                out.append(text::quote(value.as_str()).as_str());
                out.append(" is not valid");
                out
            },
        }
    }
}

// -------------------------------------------------------------------------- user names

/// A destination name the device will accept: one to fifteen ASCII letters and digits.
#[derive(Debug, PartialEq, Eq, PartialOrd, Ord, Hash)]
pub struct UserName(String);

impl Clone for UserName {
    fn clone(&self) -> (r: Self)
        ensures
            r@ == self@,
    {
        proof {
            use_type_invariant(self);
        }
        UserName(self.0.clone())
    }
}

impl View for UserName {
    type V = Seq<char>;

    closed spec fn view(&self) -> Seq<char> {
        self.0@
    }
}

/// Whether every character is an ASCII letter or digit.
pub open spec fn all_alnum(s: Seq<char>) -> bool {
    forall|i: int| 0 <= i < s.len() ==> is_alnum(#[trigger] s[i])
}

/// Whether a device takes a name.
pub open spec fn valid_user(name: Seq<char>) -> bool {
    1 <= name.len() <= MAX_USER_LEN && all_alnum(name)
}

/// Why a device takes no such name, if it does not.
pub open spec fn user_fault(name: Seq<char>) -> Option<Seq<char>> {
    if name.len() == 0 {
        Some("it is empty"@)
    } else if name.len() > MAX_USER_LEN {
        Some("it is longer than 15 characters"@)
    } else if !all_alnum(name) {
        Some("it contains something other than ASCII letters and digits"@)
    } else {
        None
    }
}

/// The first `limit` letters and digits of a text.
pub open spec fn first_alnums(s: Seq<char>, limit: nat) -> Seq<char>
    decreases s.len(),
{
    if s.len() == 0 || limit == 0 {
        seq![]
    } else if is_alnum(s[0]) {
        seq![s[0]] + first_alnums(s.drop_first(), (limit - 1) as nat)
    } else {
        first_alnums(s.drop_first(), limit)
    }
}

/// Only letters and digits are kept, and no more than the limit.
pub proof fn lemma_first_alnums(s: Seq<char>, limit: nat)
    ensures
        all_alnum(first_alnums(s, limit)),
        first_alnums(s, limit).len() <= limit,
    decreases s.len(),
{
    if s.len() == 0 || limit == 0 {
    } else if is_alnum(s[0]) {
        lemma_first_alnums(s.drop_first(), (limit - 1) as nat);
        let rest = first_alnums(s.drop_first(), (limit - 1) as nat);
        let out = first_alnums(s, limit);
        assert forall|i: int| 0 <= i < out.len() implies is_alnum(#[trigger] out[i]) by {
            if i > 0 {
                assert(out[i] == rest[i - 1]);
            }
        }
    } else {
        lemma_first_alnums(s.drop_first(), limit);
    }
}

impl UserName {
    #[verifier::type_invariant]
    spec fn accepted(self) -> bool {
        valid_user(self.0@)
    }

    /// `name`, where a device takes it.
    pub fn new(name: String) -> (r: Result<Self, RegisterError>)
        ensures
            match user_fault(name@) {
                None => r matches Ok(u) && u@ == name@,
                Some(reason) => r matches Err(e) && e@ == (RegisterErrorView::UserName {
                    name: name@,
                    reason,
                }),
            },
            r is Ok <==> valid_user(name@),
    {
        let v = text::chars(name.as_str());
        if v.len() == 0 {
            return Err(RegisterError::UserName { name, reason: "it is empty" });
        }
        if v.len() > MAX_USER_LEN {
            return Err(
                RegisterError::UserName { name, reason: "it is longer than 15 characters" },
            );
        }
        let mut i: usize = 0;
        while i < v.len()
            invariant
                v@ == name@,
                i <= v@.len(),
                1 <= v@.len() <= MAX_USER_LEN,
                forall|j: int| 0 <= j < i ==> is_alnum(#[trigger] v@[j]),
            decreases v@.len() - i,
        {
            if !text::alnum(v[i]) {
                assert(!is_alnum(name@[i as int]));
                return Err(
                    RegisterError::UserName {
                        name,
                        reason: "it contains something other than ASCII letters and digits",
                    },
                );
            }
            i = i + 1;
        }
        assert(all_alnum(name@));
        Ok(UserName(name))
    }

    /// The first fifteen letters and digits of `candidate`, or `None` where it has none.
    pub fn sanitised(candidate: &str) -> (r: Option<Self>)
        ensures
            match r {
                Some(u) => u@ == first_alnums(candidate@, MAX_USER_LEN as nat) && valid_user(u@),
                None => first_alnums(candidate@, MAX_USER_LEN as nat).len() == 0,
            },
    {
        let v = text::chars(candidate);
        let mut kept = String::new();
        let mut count: usize = 0;
        let mut i: usize = 0;
        let ghost all = first_alnums(candidate@, MAX_USER_LEN as nat);
        assert(v@.skip(0) =~= v@);
        assert(kept@ + first_alnums(v@.skip(0), MAX_USER_LEN as nat) =~= all);
        while i < v.len() && count < MAX_USER_LEN
            invariant
                v@ == candidate@,
                i <= v@.len(),
                count <= MAX_USER_LEN,
                count == kept@.len(),
                kept@ + first_alnums(v@.skip(i as int), (MAX_USER_LEN - count) as nat) =~= all,
            decreases v@.len() - i,
        {
            let c = v[i];
            assert(v@.skip(i as int)[0] == c);
            assert(v@.skip(i as int).drop_first() =~= v@.skip(i + 1));
            if text::alnum(c) {
                kept.push(c);
                count = count + 1;
            }
            i = i + 1;
        }
        proof {
            lemma_first_alnums(candidate@, MAX_USER_LEN as nat);
            assert(kept@ =~= all);
        }
        match UserName::new(kept) {
            Ok(u) => Some(u),
            Err(_) => None,
        }
    }

    /// The name.
    pub fn as_str(&self) -> (r: &str)
        ensures
            r@ == self@,
            valid_user(self@),
    {
        proof {
            use_type_invariant(self);
        }
        self.0.as_str()
    }
}

// ------------------------------------------------------------------------ registrations

/// One registration: this host, under one function, for one lease.
#[derive(Debug, Clone, PartialEq, Eq)]
pub struct Registration {
    pub user: UserName,
    /// The address the device will send the event to: that of the interface that routes
    /// to that device.
    pub host: Ipv4Addr,
    pub port: u16,
    pub function: Function,
    pub duration: Duration,
}

/// What a [`Registration`] says; the lease is in nanoseconds.
pub struct RegistrationView {
    pub user: Seq<char>,
    pub host: Ipv4Addr,
    pub port: u16,
    pub function: Function,
    pub duration: nat,
}

impl View for Registration {
    type V = RegistrationView;

    open spec fn view(&self) -> RegistrationView {
        RegistrationView {
            user: self.user@,
            host: self.host,
            port: self.port,
            function: self.function,
            duration: self.duration@,
        }
    }
}

/// The whole seconds of a lease.
pub open spec fn lease_secs(duration: nat) -> nat {
    duration / NANOS_PER_SEC as nat
}

/// The string a registration writes.
pub open spec fn registration_text(r: RegistrationView) -> Seq<char> {
    "TYPE=BR;BUTTON=SCAN;USER=\""@ + r.user + "\";FUNC="@ + r.function.token() + ";HOST="@
        + ipv4_text(r.host) + ":"@ + decimal(r.port as nat) + ";APPNUM="@ + decimal(
        r.function.number() as nat,
    ) + ";DURATION="@ + decimal(lease_secs(r.duration)) + ";BRID=;"@
}

/// The entry with a `FUNC=` token.
pub open spec fn function_of(token: Seq<char>) -> Option<Function> {
    if token == "FILE"@ {
        Some(Function::File)
    } else if token == "IMAGE"@ {
        Some(Function::Image)
    } else if token == "OCR"@ {
        Some(Function::Ocr)
    } else if token == "EMAIL"@ {
        Some(Function::Email)
    } else {
        None
    }
}

/// The address and port of a `HOST=` field; one without a port means the listener's.
pub open spec fn host_of(value: Seq<char>) -> Option<(Ipv4Addr, u16)> {
    match split_once(value, ':') {
        Some((host, port)) => match parse_unsigned(port, u16::MAX as nat) {
            None => None,
            Some(p) => match parse_ipv4(host) {
                None => None,
                Some(ip) => Some((ip, p as u16)),
            },
        },
        None => match parse_ipv4(value) {
            None => None,
            Some(ip) => Some((ip, LISTENER_PORT)),
        },
    }
}

/// The registration that a string says, or the first thing that is wrong with it.
pub open spec fn parse_registration(value: Seq<char>) -> Result<
    RegistrationView,
    RegisterErrorView,
> {
    match field_of(value, "TYPE"@) {
        None => Err(RegisterErrorView::MissingField("TYPE"@)),
        Some(kind) => if kind != "BR"@ {
            Err(RegisterErrorView::BadField { field: "TYPE"@, value: kind })
        } else {
            match field_of(value, "USER"@) {
                None => Err(RegisterErrorView::MissingField("USER"@)),
                Some(user) => match user_fault(user) {
                    Some(reason) => Err(RegisterErrorView::UserName { name: user, reason }),
                    None => parse_target(value, user),
                },
            }
        },
    }
}

/// The part of [`parse_registration`] behind `TYPE` and `USER`.
pub open spec fn parse_target(value: Seq<char>, user: Seq<char>) -> Result<
    RegistrationView,
    RegisterErrorView,
> {
    match field_of(value, "FUNC"@) {
        None => Err(RegisterErrorView::MissingField("FUNC"@)),
        Some(func) => match function_of(func) {
            None => Err(RegisterErrorView::BadField { field: "FUNC"@, value: func }),
            Some(function) => match field_of(value, "HOST"@) {
                None => Err(RegisterErrorView::MissingField("HOST"@)),
                Some(at) => match host_of(at) {
                    None => Err(RegisterErrorView::BadField { field: "HOST"@, value: at }),
                    Some((host, port)) => match field_of(value, "DURATION"@) {
                        None => Err(RegisterErrorView::MissingField("DURATION"@)),
                        Some(lease) => match parse_unsigned(lease, u32::MAX as nat) {
                            None => Err(
                                RegisterErrorView::BadField { field: "DURATION"@, value: lease },
                            ),
                            Some(secs) => Ok(
                                RegistrationView {
                                    user,
                                    host,
                                    port,
                                    function,
                                    duration: secs * NANOS_PER_SEC as nat,
                                },
                            ),
                        },
                    },
                },
            },
        },
    }
}

/// The arcs of [`REGISTRATION_OID`].
pub open spec fn registration_arcs() -> Seq<u32> {
    seq![1, 3, 6, 1, 4, 1, 2435, 2, 3, 9, 2, 11, 1, 1, 0]
}

/// The arcs of the registration object are those its text says.
pub proof fn law_registration_oid_is_its_text()
    ensures
        dotted(registration_arcs()) == REGISTRATION_OID@,
{
    reveal_strlit("1.3.6.1.4.1.2435.2.3.9.2.11.1.1.0");
    reveal_strlit(".");
    reveal_with_fuel(decimal, 4);
    reveal_with_fuel(dotted, 15);
    let a = registration_arcs();
    assert(a.drop_last() =~= seq![1, 3, 6, 1, 4, 1, 2435, 2, 3, 9, 2, 11, 1, 1]);
    assert(a.drop_last().drop_last() =~= seq![1, 3, 6, 1, 4, 1, 2435, 2, 3, 9, 2, 11, 1]);
    assert(dotted(a) =~= REGISTRATION_OID@);
}

/// The registration object.
pub fn registration_oid() -> (r: Oid)
    ensures
        r@ == registration_arcs(),
{
    let arcs: Vec<u32> = vec![1, 3, 6, 1, 4, 1, 2435, 2, 3, 9, 2, 11, 1, 1, 0];
    assert(arcs@ =~= registration_arcs());
    match Oid::new(arcs) {
        Ok(oid) => oid,
        Err(_) => {
            assert(false);
            vstd::pervasive::unreached()
        },
    }
}

/// An error for a field that is present and wrong.
fn bad(name: &'static str, found: &str) -> (r: RegisterError)
    ensures
        r@ == (RegisterErrorView::BadField { field: name@, value: found@ }),
{
    RegisterError::BadField { field: name, value: found.to_owned() }
}

fn host_field(value: &str) -> (r: Option<(Ipv4Addr, u16)>)
    ensures
        r == host_of(value@),
{
    let v = text::chars(value);
    match text::halves(v.as_slice(), ':') {
        Some((host, port)) => {
            let number: u64 = match text::number(port, 0xffff) {
                Some(n) => n,
                None => {
                    return None;
                },
            };
            match Ipv4Addr::parse_chars(host) {
                Some(ip) => Some((ip, number as u16)),
                None => None,
            }
        },
        None => match Ipv4Addr::parse_chars(v.as_slice()) {
            Some(ip) => Some((ip, LISTENER_PORT)),
            None => None,
        },
    }
}

impl Registration {
    /// A registration for the default lease at the listener's port.
    pub fn new(user: UserName, host: Ipv4Addr, function: Function) -> (r: Self)
        ensures
            r@ == (RegistrationView {
                user: user@,
                host,
                port: LISTENER_PORT,
                function,
                duration: (DEFAULT_DURATION_SECS * NANOS_PER_SEC) as nat,
            }),
    {
        Registration {
            user,
            host,
            port: LISTENER_PORT,
            function,
            duration: Duration::from_secs(DEFAULT_DURATION_SECS),
        }
    }

    /// The string that goes in the varbind. Field order is part of it.
    pub fn value(&self) -> (r: Result<String, RegisterError>)
        ensures
            match r {
                Ok(s) => 1 <= lease_secs(self@.duration) <= u32::MAX && s@ == registration_text(
                    self@,
                ),
                Err(e) => !(1 <= lease_secs(self@.duration) <= u32::MAX) && e@
                    == RegisterErrorView::Duration(lease_secs(self@.duration) as u64),
            },
    {
        let seconds: u64 = self.duration.as_secs();
        if seconds == 0 || seconds > 0xffff_ffff {
            return Err(RegisterError::Duration(seconds));
        }
        let mut out = "TYPE=BR;BUTTON=SCAN;USER=\"".to_owned();
        out.append(self.user.as_str());
        out.append("\";FUNC=");
        out.append(self.function.as_str());
        out.append(";HOST=");
        out.append(self.host.to_text().as_str());
        out.append(":");
        out.append(text::decimal_text(self.port as u64).as_str());
        out.append(";APPNUM=");
        out.append(text::decimal_text(self.function.appnum() as u64).as_str());
        out.append(";DURATION=");
        out.append(text::decimal_text(seconds).as_str());
        out.append(";BRID=;");
        Ok(out)
    }

    /// The registration that a string says.
    pub fn parse(value: &str) -> (r: Result<Self, RegisterError>)
        ensures
            match parse_registration(value@) {
                Ok(v) => r matches Ok(x) && x@ == v,
                Err(e) => r matches Err(x) && x@ == e,
            },
    {
        let kind = match field(value, "TYPE") {
            Some(v) => v,
            None => {
                return Err(RegisterError::MissingField("TYPE"));
            },
        };
        if !text::same(kind, "BR") {
            return Err(bad("TYPE", kind));
        }
        let user = match field(value, "USER") {
            Some(v) => v,
            None => {
                return Err(RegisterError::MissingField("USER"));
            },
        };
        let user = match UserName::new(user.to_owned()) {
            Ok(u) => u,
            Err(e) => {
                return Err(e);
            },
        };
        let func = match field(value, "FUNC") {
            Some(v) => v,
            None => {
                return Err(RegisterError::MissingField("FUNC"));
            },
        };
        let function = match Function::from_token(func) {
            Some(f) => {
                proof {
                    law_panel_numberings_are_injective(f, Function::File);
                    law_panel_numberings_are_injective(f, Function::Image);
                    law_panel_numberings_are_injective(f, Function::Ocr);
                    law_panel_numberings_are_injective(f, Function::Email);
                }
                f
            },
            None => {
                assert(func@ != Function::File.token() && func@ != Function::Image.token() && func@
                    != Function::Ocr.token() && func@ != Function::Email.token());
                return Err(bad("FUNC", func));
            },
        };
        let at = match field(value, "HOST") {
            Some(v) => v,
            None => {
                return Err(RegisterError::MissingField("HOST"));
            },
        };
        let (host, port) = match host_field(at) {
            Some(x) => x,
            None => {
                return Err(bad("HOST", at));
            },
        };
        let lease = match field(value, "DURATION") {
            Some(v) => v,
            None => {
                return Err(RegisterError::MissingField("DURATION"));
            },
        };
        match text::parse_number(lease, 0xffff_ffff) {
            Some(secs) => Ok(
                Registration { user, host, port, function, duration: Duration::from_secs(secs) },
            ),
            None => Err(bad("DURATION", lease)),
        }
    }

    /// The `SetRequest` that installs this registration.
    pub fn set_request(&self, community: &str, request_id: i32) -> (r: Result<
        Message,
        RegisterError,
    >)
        ensures
            match r {
                Ok(m) => 1 <= lease_secs(self@.duration) <= u32::MAX && m@ == request_of(
                    PduKind::SetRequest,
                    encode_utf8(community@),
                    request_id,
                    registration_arcs(),
                    encode_utf8(registration_text(self@)),
                ),
                Err(e) => !(1 <= lease_secs(self@.duration) <= u32::MAX) && e@
                    == RegisterErrorView::Duration(lease_secs(self@.duration) as u64),
            },
    {
        let value = match self.value() {
            Ok(s) => s,
            Err(e) => {
                return Err(e);
            },
        };
        let bytes = vstd::slice::slice_to_vec(value.as_str().as_bytes());
        Ok(Message::set(community, request_id, registration_oid(), bytes))
    }
}

/// The read that tells a device apart from one that has never heard of the object.
pub fn probe_request(community: &str, request_id: i32) -> (r: Message)
    ensures
        r@ == request_of(
            PduKind::GetRequest,
            encode_utf8(community@),
            request_id,
            registration_arcs(),
            seq![],
        ),
{
    Message::get(community, request_id, registration_oid())
}

// ------------------------------------------------------------------------- round trip

/// The fields of a registration string.
pub open spec fn registration_fields(r: RegistrationView) -> Seq<(Seq<char>, Seq<char>)> {
    seq![
        ("TYPE"@, "BR"@),
        ("BUTTON"@, "SCAN"@),
        ("USER"@, seq!['"'] + r.user + seq!['"']),
        ("FUNC"@, r.function.token()),
        ("HOST"@, ipv4_text(r.host) + seq![':'] + decimal(r.port as nat)),
        ("APPNUM"@, decimal(r.function.number() as nat)),
        ("DURATION"@, decimal(lease_secs(r.duration))),
        ("BRID"@, seq![]),
    ]
}

/// Whether a text is made of letters, digits, dots, colons and double quotes.
spec fn harmless(s: Seq<char>) -> bool {
    forall|i: int|
        0 <= i < s.len() ==> is_alnum(#[trigger] s[i]) || s[i] == '.' || s[i] == ':' || s[i] == '"'
}

proof fn lemma_harmless(s: Seq<char>)
    requires
        harmless(s),
    ensures
        !s.contains(';'),
        !s.contains('='),
{
    if s.contains(';') {
        let j = s.index_of(';');
        assert(is_alnum(s[j]) || s[j] == '.' || s[j] == ':' || s[j] == '"');
    }
    if s.contains('=') {
        let j = s.index_of('=');
        assert(is_alnum(s[j]) || s[j] == '.' || s[j] == ':' || s[j] == '"');
    }
}

proof fn lemma_decimal_harmless(n: nat)
    ensures
        harmless(decimal(n)),
        decimal(n).len() > 0,
        text::is_digit(decimal(n)[0]),
        !decimal(n).contains(':'),
{
    text::lemma_decimal_reads_back(n);
    let s = decimal(n);
    assert forall|i: int| 0 <= i < s.len() implies is_alnum(#[trigger] s[i]) || s[i] == '.' || s[i]
        == ':' || s[i] == '"' by {
        assert(text::is_digit(s[i]));
    }
    assert(text::is_digit(s[0]));
    if s.contains(':') {
        let j = s.index_of(':');
        assert(text::is_digit(s[j]));
    }
}

proof fn lemma_address_harmless(ip: Ipv4Addr)
    ensures
        harmless(ipv4_text(ip)),
        ipv4_text(ip).len() > 0,
        text::is_digit(ipv4_text(ip)[0]),
        !ipv4_text(ip).contains(':'),
{
    reveal_strlit(".");
    assert("."@ =~= seq!['.']);
    lemma_decimal_harmless(ip.a as nat);
    lemma_decimal_harmless(ip.b as nat);
    lemma_decimal_harmless(ip.c as nat);
    lemma_decimal_harmless(ip.d as nat);
    let (a, b, c, d) = (
        decimal(ip.a as nat),
        decimal(ip.b as nat),
        decimal(ip.c as nat),
        decimal(ip.d as nat),
    );
    let s = ipv4_text(ip);
    assert forall|i: int| 0 <= i < s.len() implies (is_alnum(#[trigger] s[i]) || s[i] == '.') && s[i]
        != ':' by {
        let (n1, n2, n3) = (
            a.len() as int,
            (a.len() + b.len() + 1) as int,
            (a.len() + b.len() + c.len() + 2) as int,
        );
        text::lemma_decimal_reads_back(ip.a as nat);
        text::lemma_decimal_reads_back(ip.b as nat);
        text::lemma_decimal_reads_back(ip.c as nat);
        text::lemma_decimal_reads_back(ip.d as nat);
        if i < n1 {
            assert(s[i] == a[i]);
        } else if i == n1 {
        } else if i < n2 {
            assert(s[i] == b[i - n1 - 1]);
        } else if i == n2 {
        } else if i < n3 {
            assert(s[i] == c[i - n2 - 1]);
        } else if i == n3 {
        } else {
            assert(s[i] == d[i - n3 - 1]);
        }
    }
    assert(s[0] == a[0]);
    if s.contains(':') {
        let j = s.index_of(':');
        assert(s[j] != ':');
    }
}

proof fn lemma_tokens_harmless(f: Function)
    ensures
        harmless(f.token()),
        unquoted(f.token()) == f.token(),
        function_of(f.token()) == Some(f),
{
    reveal_strlit("FILE");
    reveal_strlit("IMAGE");
    reveal_strlit("OCR");
    reveal_strlit("EMAIL");
    law_panel_numberings_are_injective(f, Function::File);
    law_panel_numberings_are_injective(f, Function::Image);
    law_panel_numberings_are_injective(f, Function::Ocr);
    law_panel_numberings_are_injective(f, Function::Email);
    let s = f.token();
    assert(s.len() <= 5);
    assert(s[0] == 'F' || s[0] == 'I' || s[0] == 'O' || s[0] == 'E');
    assert forall|i: int| 0 <= i < s.len() implies is_alnum(#[trigger] s[i]) by {
        assert(i == 0 || i == 1 || i == 2 || i == 3 || i == 4);
    }
}

proof fn lemma_names_plain()
    ensures
        harmless("TYPE"@) && harmless("BUTTON"@) && harmless("USER"@) && harmless("FUNC"@)
            && harmless("HOST"@) && harmless("APPNUM"@) && harmless("DURATION"@) && harmless(
            "BRID"@,
        ) && harmless("BR"@) && harmless("SCAN"@),
        "TYPE"@[0] == 'T' && "BUTTON"@[0] == 'B' && "USER"@[0] == 'U' && "FUNC"@[0] == 'F'
            && "HOST"@[0] == 'H' && "APPNUM"@[0] == 'A' && "DURATION"@[0] == 'D',
        "BR"@.len() == 2,
        "BR"@[0] == 'B',
{
    reveal_strlit("TYPE");
    reveal_strlit("BUTTON");
    reveal_strlit("USER");
    reveal_strlit("FUNC");
    reveal_strlit("HOST");
    reveal_strlit("APPNUM");
    reveal_strlit("DURATION");
    reveal_strlit("BRID");
    reveal_strlit("BR");
    reveal_strlit("SCAN");
    lemma_literal_harmless("TYPE"@);
    lemma_literal_harmless("BUTTON"@);
    lemma_literal_harmless("USER"@);
    lemma_literal_harmless("FUNC"@);
    lemma_literal_harmless("HOST"@);
    lemma_literal_harmless("APPNUM"@);
    lemma_literal_harmless("DURATION"@);
    lemma_literal_harmless("BRID"@);
    lemma_literal_harmless("BR"@);
    lemma_literal_harmless("SCAN"@);
}

proof fn lemma_literal_harmless(s: Seq<char>)
    requires
        s.len() <= 8,
        s.len() > 0 ==> is_alnum(s[0]),
        s.len() > 1 ==> is_alnum(s[1]),
        s.len() > 2 ==> is_alnum(s[2]),
        s.len() > 3 ==> is_alnum(s[3]),
        s.len() > 4 ==> is_alnum(s[4]),
        s.len() > 5 ==> is_alnum(s[5]),
        s.len() > 6 ==> is_alnum(s[6]),
        s.len() > 7 ==> is_alnum(s[7]),
    ensures
        harmless(s),
{
    assert forall|i: int| 0 <= i < s.len() implies is_alnum(#[trigger] s[i]) by {
        assert(i == 0 || i == 1 || i == 2 || i == 3 || i == 4 || i == 5 || i == 6 || i == 7);
    }
}

proof fn lemma_fields_plain(r: RegistrationView)
    requires
        valid_user(r.user),
    ensures
        plain(registration_fields(r)),
{
    let fields = registration_fields(r);
    lemma_names_plain();
    lemma_tokens_harmless(r.function);
    lemma_address_harmless(r.host);
    lemma_decimal_harmless(r.port as nat);
    lemma_decimal_harmless(r.function.number() as nat);
    lemma_decimal_harmless(lease_secs(r.duration));
    let user = fields[2].1;
    assert forall|i: int| 0 <= i < user.len() implies is_alnum(#[trigger] user[i]) || user[i] == '.'
        || user[i] == ':' || user[i] == '"' by {
        if 0 < i < user.len() - 1 {
            assert(user[i] == r.user[i - 1]);
        }
    }
    let host = fields[4].1;
    let ip = ipv4_text(r.host);
    let port = decimal(r.port as nat);
    assert forall|i: int| 0 <= i < host.len() implies is_alnum(#[trigger] host[i]) || host[i] == '.'
        || host[i] == ':' || host[i] == '"' by {
        if i < ip.len() {
            assert(host[i] == ip[i]);
        } else if i > ip.len() {
            assert(host[i] == port[i - ip.len() - 1]);
        }
    }
    assert forall|i: int| 0 <= i < fields.len() implies !(#[trigger] fields[i]).0.contains(';')
        && !fields[i].0.contains('=') && !fields[i].1.contains(';') by {
        assert(i == 0 || i == 1 || i == 2 || i == 3 || i == 4 || i == 5 || i == 6 || i == 7);
        lemma_harmless(fields[i].0);
        lemma_harmless(fields[i].1);
    }
}

/// How sums of texts may be bracketed.
proof fn lemma_sum(a: Seq<char>, b: Seq<char>, c: Seq<char>, d: Seq<char>, e: Seq<char>)
    ensures
        a + b + c + d + e == a + (b + (c + (d + e))),
        a + b + c + d == a + (b + (c + d)),
        a + b + c == a + (b + c),
{
    assert(a + b + c + d + e =~= a + (b + (c + (d + e))));
    assert(a + b + c + d =~= a + (b + (c + d)));
    assert(a + b + c =~= a + (b + c));
}

proof fn lemma_tail_duration(lease: Seq<char>, f6: Seq<(Seq<char>, Seq<char>)>)
    requires
        f6 == seq![("DURATION"@, lease), ("BRID"@, seq![])],
    ensures
        ";DURATION="@ + (lease + ";BRID=;"@) == seq![';'] + render(f6),
{
    reveal_strlit(";DURATION=");
    reveal_strlit(";BRID=;");
    reveal_strlit("DURATION");
    reveal_strlit("BRID");
    let f7 = f6.drop_first();
    assert(f7 =~= seq![("BRID"@, seq![])]);
    assert(f7.drop_first() =~= seq![]);
    assert(render(f7.drop_first()) =~= Seq::<char>::empty());
    assert(render(f7) =~= "BRID"@ + seq!['=', ';']);
    assert(";BRID=;"@ =~= seq![';'] + render(f7));
    assert(";DURATION="@ =~= seq![';'] + "DURATION"@ + seq!['=']);
    assert(";DURATION="@ + (lease + ";BRID=;"@) =~= seq![';'] + ("DURATION"@ + seq!['='] + lease
        + seq![';'] + render(f7)));
}

/// A field in front of fields, where the literal in front is `;`, the name and `=`.
proof fn lemma_tail_step(
    literal: Seq<char>,
    name: Seq<char>,
    value: Seq<char>,
    fields: Seq<(Seq<char>, Seq<char>)>,
)
    requires
        fields.len() > 0,
        fields[0] == (name, value),
        literal == seq![';'] + name + seq!['='],
    ensures
        literal + (value + (seq![';'] + render(fields.drop_first()))) == seq![';'] + render(fields),
{
    let rest = render(fields.drop_first());
    assert(literal + (value + (seq![';'] + rest)) =~= seq![';'] + (name + seq!['='] + value + seq![
        ';',
    ] + rest));
}

proof fn lemma_head(user: Seq<char>, rest: Seq<char>)
    ensures
        "TYPE=BR;BUTTON=SCAN;USER=\""@ + (user + (seq!['"'] + (seq![';'] + rest))) == "TYPE"@
            + seq!['='] + "BR"@ + seq![';'] + ("BUTTON"@ + seq!['='] + "SCAN"@ + seq![';'] + (
        "USER"@ + seq!['='] + (seq!['"'] + user + seq!['"']) + seq![';'] + rest)),
{
    reveal_strlit("TYPE=BR;BUTTON=SCAN;USER=\"");
    reveal_strlit("TYPE");
    reveal_strlit("BR");
    reveal_strlit("BUTTON");
    reveal_strlit("SCAN");
    reveal_strlit("USER");
    let front = "TYPE"@ + seq!['='] + "BR"@ + seq![';'] + "BUTTON"@ + seq!['='] + "SCAN"@ + seq![
        ';',
    ] + "USER"@ + seq!['='] + seq!['"'];
    assert("TYPE=BR;BUTTON=SCAN;USER=\""@ =~= front);
    assert(front + (user + (seq!['"'] + (seq![';'] + rest))) =~= "TYPE"@ + seq!['='] + "BR"@ + seq![
        ';',
    ] + ("BUTTON"@ + seq!['='] + "SCAN"@ + seq![';'] + ("USER"@ + seq!['='] + (seq!['"'] + user
        + seq!['"']) + seq![';'] + rest)));
}

proof fn lemma_text_is_rendered(r: RegistrationView)
    ensures
        registration_text(r) == render(registration_fields(r)),
{
    let f = registration_fields(r);
    let f6 = f.skip(6);
    let f5 = f.skip(5);
    let f4 = f.skip(4);
    let f3 = f.skip(3);
    let f2 = f.skip(2);
    let f1 = f.skip(1);
    let lease = decimal(lease_secs(r.duration));
    let number = decimal(r.function.number() as nat);
    let port = decimal(r.port as nat);
    let ip = ipv4_text(r.host);
    let token = r.function.token();
    let semi = seq![';'];
    assert(f6 =~= seq![("DURATION"@, lease), ("BRID"@, seq![])]);
    assert(f5.drop_first() =~= f6);
    assert(f4.drop_first() =~= f5);
    assert(f3.drop_first() =~= f4);
    assert(f2.drop_first() =~= f3);
    assert(f1.drop_first() =~= f2);
    assert(f.drop_first() =~= f1);
    lemma_tail_duration(lease, f6);
    assert(";APPNUM="@ =~= semi + "APPNUM"@ + seq!['=']) by {
        reveal_strlit(";APPNUM=");
        reveal_strlit("APPNUM");
    }
    assert(";HOST="@ =~= semi + "HOST"@ + seq!['=']) by {
        reveal_strlit(";HOST=");
        reveal_strlit("HOST");
    }
    assert("\";FUNC="@ =~= seq!['"'] + (semi + "FUNC"@ + seq!['='])) by {
        reveal_strlit("\";FUNC=");
        reveal_strlit("FUNC");
    }
    assert(":"@ =~= seq![':']) by {
        reveal_strlit(":");
    }
    let func = semi + "FUNC"@ + seq!['='];
    let at = ip + seq![':'] + port;
    lemma_tail_step(";APPNUM="@, "APPNUM"@, number, f5);
    lemma_tail_step(";HOST="@, "HOST"@, at, f4);
    lemma_tail_step(func, "FUNC"@, token, f3);
    lemma_head(r.user, render(f3));
    assert(f[0] == ("TYPE"@, "BR"@) && f1[0] == ("BUTTON"@, "SCAN"@) && f2[0] == (
        "USER"@,
        seq!['"'] + r.user + seq!['"'],
    ));

    let s6 = semi + render(f6);
    let s5 = semi + render(f5);
    let s4 = semi + render(f4);
    let s3 = semi + render(f3);
    let front = "TYPE=BR;BUTTON=SCAN;USER=\""@;
    let q = "\";FUNC="@;
    // Bracket the text from the right.
    let t1 = front + r.user + q + token + ";HOST="@;
    let t2 = t1 + ip + ":"@ + port + ";APPNUM="@;
    lemma_sum(t2, number, ";DURATION="@, lease, ";BRID=;"@);
    lemma_sum(";DURATION="@, lease, ";BRID=;"@, seq![], seq![]);
    assert(registration_text(r) == t2 + (number + s6));
    lemma_sum(t1 + ip + ":"@ + port, ";APPNUM="@, number + s6, seq![], seq![]);
    assert(registration_text(r) == t1 + ip + ":"@ + port + s5);
    lemma_sum(t1, ip, ":"@, port, s5);
    lemma_sum(ip, ":"@, port, s5, seq![]);
    assert(registration_text(r) == t1 + (at + s5));
    lemma_sum(front + r.user + q + token, ";HOST="@, at + s5, seq![], seq![]);
    assert(registration_text(r) == front + r.user + q + token + s4);
    lemma_sum(front, r.user, q, token, s4);
    lemma_sum(seq!['"'], func, token + s4, seq![], seq![]);
    assert(q + (token + s4) == seq!['"'] + s3);
    assert(registration_text(r) == front + (r.user + (seq!['"'] + s3)));
    assert(render(f2) == "USER"@ + seq!['='] + (seq!['"'] + r.user + seq!['"']) + semi + render(f3));
    assert(render(f1) == "BUTTON"@ + seq!['='] + "SCAN"@ + semi + render(f2));
    assert(render(f) == "TYPE"@ + seq!['='] + "BR"@ + semi + render(f1));
}

proof fn lemma_lookups(r: RegistrationView)
    ensures
        ({
            let f = registration_fields(r);
            &&& lookup(f, "TYPE"@) == Some(f[0].1)
            &&& lookup(f, "USER"@) == Some(f[2].1)
            &&& lookup(f, "FUNC"@) == Some(f[3].1)
            &&& lookup(f, "HOST"@) == Some(f[4].1)
            &&& lookup(f, "DURATION"@) == Some(f[6].1)
        }),
{
    lemma_names_plain();
    let f = registration_fields(r);
    let f6 = f.skip(6);
    let f5 = f.skip(5);
    let f4 = f.skip(4);
    let f3 = f.skip(3);
    let f2 = f.skip(2);
    let f1 = f.skip(1);
    assert(f5.drop_first() =~= f6);
    assert(f4.drop_first() =~= f5);
    assert(f3.drop_first() =~= f4);
    assert(f2.drop_first() =~= f3);
    assert(f1.drop_first() =~= f2);
    assert(f.drop_first() =~= f1);
    assert(lookup(f6, "DURATION"@) == Some(f[6].1));
    assert(lookup(f5, "DURATION"@) == Some(f[6].1));
    assert(lookup(f4, "DURATION"@) == Some(f[6].1));
    assert(lookup(f3, "DURATION"@) == Some(f[6].1));
    assert(lookup(f2, "DURATION"@) == Some(f[6].1));
    assert(lookup(f1, "DURATION"@) == Some(f[6].1));
    assert(lookup(f4, "HOST"@) == Some(f[4].1));
    assert(lookup(f3, "HOST"@) == Some(f[4].1));
    assert(lookup(f2, "HOST"@) == Some(f[4].1));
    assert(lookup(f1, "HOST"@) == Some(f[4].1));
    assert(lookup(f3, "FUNC"@) == Some(f[3].1));
    assert(lookup(f2, "FUNC"@) == Some(f[3].1));
    assert(lookup(f1, "FUNC"@) == Some(f[3].1));
    assert(lookup(f2, "USER"@) == Some(f[2].1));
    assert(lookup(f1, "USER"@) == Some(f[2].1));
}

/// Reading a registration's string gives the registration back, with the lease in whole
/// seconds.
pub proof fn law_registration_reads_back(r: RegistrationView)
    requires
        valid_user(r.user),
        1 <= lease_secs(r.duration) <= u32::MAX,
    ensures
        parse_registration(registration_text(r)) == Ok::<RegistrationView, RegisterErrorView>(
            RegistrationView { duration: lease_secs(r.duration) * NANOS_PER_SEC as nat, ..r },
        ),
{
    let f = registration_fields(r);
    let s = registration_text(r);
    lemma_text_is_rendered(r);
    lemma_fields_plain(r);
    lemma_lookups(r);
    lemma_names_plain();
    lemma_tokens_harmless(r.function);
    lemma_address_harmless(r.host);
    lemma_decimal_harmless(r.port as nat);
    lemma_decimal_harmless(lease_secs(r.duration));
    law_fields_read_back(f, "TYPE"@);
    law_fields_read_back(f, "USER"@);
    law_fields_read_back(f, "FUNC"@);
    law_fields_read_back(f, "HOST"@);
    law_fields_read_back(f, "DURATION"@);
    assert(field_of(s, "TYPE"@) == Some("BR"@));
    assert(unquoted(f[2].1) =~= r.user);
    assert(field_of(s, "USER"@) == Some(r.user));
    assert(user_fault(r.user) is None);
    let ip = ipv4_text(r.host);
    let port = decimal(r.port as nat);
    let at = ip + seq![':'] + port;
    assert(at[0] == ip[0]);
    assert(unquoted(at) == at);
    assert(field_of(s, "HOST"@) == Some(at));
    text::lemma_split_first(ip, ':', port);
    assert(at.take(ip.len() as int) =~= ip);
    assert(at.skip(ip.len() as int + 1) =~= port);
    law_address_text_reads_back(r.host);
    text::lemma_decimal_parses(r.port as nat, u16::MAX as nat);
    assert(host_of(at) == Some((r.host, r.port)));
    let lease = decimal(lease_secs(r.duration));
    assert(unquoted(lease) == lease);
    text::lemma_decimal_parses(lease_secs(r.duration), u32::MAX as nat);
}

proof fn lemma_lookup_renamed(
    fields: Seq<(Seq<char>, Seq<char>)>,
    at: int,
    value: Seq<char>,
    key: Seq<char>,
)
    requires
        0 <= at < fields.len(),
        fields[at].0 != key,
    ensures
        lookup(fields.update(at, (fields[at].0, value)), key) == lookup(fields, key),
    decreases at,
{
    let changed = fields.update(at, (fields[at].0, value));
    if at == 0 {
        assert(changed.drop_first() =~= fields.drop_first());
    } else {
        let rest = fields.drop_first();
        assert(changed.drop_first() =~= rest.update(at - 1, (rest[at - 1].0, value)));
        lemma_lookup_renamed(rest, at - 1, value, key);
    }
}

/// What stands before the quoted name in a registration's string.
pub open spec fn before_name() -> Seq<char> {
    "TYPE=BR;BUTTON=SCAN;USER="@
}

/// A registration's string without the two quotes around the name in it.
pub open spec fn bare_registration_text(r: RegistrationView) -> Seq<char> {
    let at = before_name().len() as int;
    registration_text(r).remove(at + 1 + r.user.len()).remove(at)
}

proof fn lemma_bare_text_is_rendered(r: RegistrationView)
    ensures
        ({
            let at = before_name().len() as int;
            let s = registration_text(r);
            &&& s.take(at) == before_name()
            &&& at + r.user.len() + 1 < s.len()
            &&& s[at] == '"' && s[at + 1 + r.user.len()] == '"'
            &&& bare_registration_text(r) == render(
                registration_fields(r).update(2, ("USER"@, r.user)),
            )
        }),
{
    let f = registration_fields(r);
    let b = f.update(2, ("USER"@, r.user));
    let f3 = f.skip(3);
    let rest = render(f3);
    lemma_text_is_rendered(r);
    reveal_strlit("TYPE=BR;BUTTON=SCAN;USER=");
    reveal_strlit("TYPE");
    reveal_strlit("BR");
    reveal_strlit("BUTTON");
    reveal_strlit("SCAN");
    reveal_strlit("USER");
    let quote = seq!['"'];
    let front = "TYPE"@ + seq!['='] + "BR"@ + seq![';'] + ("BUTTON"@ + seq!['='] + "SCAN"@ + seq![
        ';',
    ] + ("USER"@ + seq!['=']));
    assert(front =~= before_name());
    assert(f.skip(1) =~= f.drop_first() && f.skip(2) =~= f.drop_first().drop_first() && f3
        =~= f.drop_first().drop_first().drop_first());
    assert(b.drop_first().drop_first().drop_first() =~= f3);
    let f1 = f.drop_first();
    let f2 = f1.drop_first();
    let b1 = b.drop_first();
    let b2 = b1.drop_first();
    assert(render(f2) == "USER"@ + seq!['='] + (quote + r.user + quote) + seq![';'] + rest);
    assert(render(b2) == "USER"@ + seq!['='] + r.user + seq![';'] + rest);
    assert(f1[0] == ("BUTTON"@, "SCAN"@) && b1[0] == ("BUTTON"@, "SCAN"@));
    assert(f[0] == ("TYPE"@, "BR"@) && b[0] == ("TYPE"@, "BR"@));
    let kind = "TYPE"@ + seq!['='] + "BR"@ + seq![';'];
    let button = "BUTTON"@ + seq!['='] + "SCAN"@ + seq![';'];
    assert(render(f1) == button + render(f2) && render(b1) == button + render(b2));
    assert(render(f) == kind + render(f1) && render(b) == kind + render(b1));
    assert(kind + (button + render(f2)) =~= front + quote + r.user + quote + seq![';'] + rest);
    assert(kind + (button + render(b2)) =~= front + r.user + seq![';'] + rest);
    let at = front.len() as int;
    let s = render(f);
    assert(s.take(at) =~= front);
    assert(s.remove(at + 1 + r.user.len()) =~= front + quote + r.user + seq![';'] + rest);
    assert(s.remove(at + 1 + r.user.len()).remove(at) =~= front + r.user + seq![';'] + rest);
}

/// Reading a registration's string with the two quotes around the name taken out gives the
/// same registration as reading it with them.
pub proof fn law_a_bare_name_reads_back(r: RegistrationView)
    requires
        valid_user(r.user),
        1 <= lease_secs(r.duration) <= u32::MAX,
    ensures
        registration_text(r).take(before_name().len() as int) == before_name(),
        registration_text(r)[before_name().len() as int] == '"',
        registration_text(r)[before_name().len() as int + 1 + r.user.len()] == '"',
        parse_registration(bare_registration_text(r)) == Ok::<RegistrationView, RegisterErrorView>(
            RegistrationView { duration: lease_secs(r.duration) * NANOS_PER_SEC as nat, ..r },
        ),
{
    let f = registration_fields(r);
    let b = f.update(2, ("USER"@, r.user));
    lemma_bare_text_is_rendered(r);
    lemma_text_is_rendered(r);
    lemma_fields_plain(r);
    lemma_names_plain();
    law_registration_reads_back(r);
    assert forall|i: int| 0 <= i < r.user.len() implies is_alnum(#[trigger] r.user[i]) by {}
    lemma_harmless(r.user);
    lemma_harmless("USER"@);
    assert forall|i: int| 0 <= i < b.len() implies !(#[trigger] b[i]).0.contains(';')
        && !b[i].0.contains('=') && !b[i].1.contains(';') by {
        if i != 2 {
            assert(b[i] == f[i]);
        }
    }
    lemma_bare_lookups(r, "TYPE"@);
    lemma_bare_lookups(r, "FUNC"@);
    lemma_bare_lookups(r, "HOST"@);
    lemma_bare_lookups(r, "DURATION"@);
    let b1 = b.drop_first();
    let b2 = b1.drop_first();
    assert(b[0].0 == "TYPE"@ && b1[0].0 == "BUTTON"@ && b2[0] == ("USER"@, r.user));
    assert(lookup(b2, "USER"@) == Some(r.user));
    assert(lookup(b1, "USER"@) == Some(r.user));
    assert(lookup(b, "USER"@) == Some(r.user));
    law_fields_read_back(b, "USER"@);
    assert(unquoted(r.user) == r.user) by {
        assert(is_alnum(r.user[0]));
    }
    lemma_lookups(r);
    law_fields_read_back(f, "USER"@);
    assert(unquoted(f[2].1) =~= r.user);
}

proof fn lemma_bare_lookups(r: RegistrationView, key: Seq<char>)
    requires
        plain(registration_fields(r)),
        plain(registration_fields(r).update(2, ("USER"@, r.user))),
        key != "USER"@,
    ensures
        field_of(render(registration_fields(r).update(2, ("USER"@, r.user))), key) == field_of(
            render(registration_fields(r)),
            key,
        ),
{
    let f = registration_fields(r);
    lemma_lookup_renamed(f, 2, r.user, key);
    law_fields_read_back(f, key);
    law_fields_read_back(f.update(2, ("USER"@, r.user)), key);
}

/// The string that registers a host says each thing in a field of its own: the type and the
/// button, which are always the same, who registers, for which function, where presses go, the
/// function's number, the lease in seconds, and a panel password that is never set.
#[verifier::rlimit(40)]
pub proof fn law_a_registration_string_says_its_fields(r: RegistrationView)
    requires
        valid_user(r.user),
    ensures
        ({
            let s = registration_text(r);
            &&& field_of(s, "TYPE"@) == Some("BR"@)
            &&& field_of(s, "BUTTON"@) == Some("SCAN"@)
            &&& field_of(s, "USER"@) == Some(r.user)
            &&& field_of(s, "FUNC"@) == Some(r.function.token())
            &&& field_of(s, "HOST"@) == Some(ipv4_text(r.host) + seq![':'] + decimal(r.port as nat))
            &&& field_of(s, "APPNUM"@) == Some(decimal(r.function.number() as nat))
            &&& field_of(s, "DURATION"@) == Some(decimal(r.duration / 1_000_000_000))
            &&& field_of(s, "BRID"@) matches Some(b) && b.len() == 0
        }),
{
    let f = registration_fields(r);
    lemma_text_is_rendered(r);
    lemma_fields_plain(r);
    lemma_names_plain();
    lemma_tokens_harmless(r.function);
    lemma_address_harmless(r.host);
    lemma_decimal_harmless(r.port as nat);
    lemma_decimal_harmless(r.function.number() as nat);
    lemma_decimal_harmless(lease_secs(r.duration));
    reveal_strlit("BRID");
    reveal_strlit("BUTTON");
    reveal_strlit("SCAN");
    law_the_first_field_counts(f, 0, "TYPE"@);
    law_the_first_field_counts(f, 1, "BUTTON"@);
    law_the_first_field_counts(f, 2, "USER"@);
    law_the_first_field_counts(f, 3, "FUNC"@);
    law_the_first_field_counts(f, 4, "HOST"@);
    law_the_first_field_counts(f, 5, "APPNUM"@);
    law_the_first_field_counts(f, 6, "DURATION"@);
    assert forall|j: int| 0 <= j < 7 implies (#[trigger] f[j]).0 != "BRID"@ by {
        assert("BUTTON"@.len() == 6 && "BRID"@.len() == 4);
        if j != 1 {
            assert(f[j].0[0] != 'B');
        }
    }
    law_the_first_field_counts(f, 7, "BRID"@);
    assert(unquoted(f[2].1) =~= r.user);
    assert(f[4].1[0] == ipv4_text(r.host)[0]);
    assert(unquoted(f[5].1) == f[5].1);
    assert(unquoted(f[6].1) == f[6].1);
}

/// A string is a registration exactly where it has Brother's type, a name that a device takes,
/// a known function, an address and a lease in seconds; and each part of the registration is
/// the field of that name.
pub proof fn law_a_registration_is_what_its_fields_say(value: Seq<char>)
    ensures
        ({
            let said = |key: Seq<char>| field_of(value, key);
            let read = parse_registration(value);
            &&& read is Ok <==> said("TYPE"@) == Some("BR"@) && (said("USER"@) matches Some(u)
                && valid_user(u)) && (said("FUNC"@) matches Some(f) && function_of(f) is Some) && (
            said("HOST"@) matches Some(h) && host_of(h) is Some) && (said("DURATION"@) matches Some(
                d,
            ) && parse_unsigned(d, 0xffff_ffff) is Some)
            &&& read matches Ok(r) ==> {
                &&& said("USER"@) == Some(r.user)
                &&& said("FUNC"@) matches Some(f) && function_of(f) == Some(r.function)
                &&& said("HOST"@) matches Some(h) && host_of(h) == Some((r.host, r.port))
                &&& said("DURATION"@) matches Some(d) && r.duration % 1_000_000_000 == 0
                    && parse_unsigned(d, 0xffff_ffff) == Some(r.duration / 1_000_000_000)
            }
        }),
{
}

/// Where presses go: the address in front of the colon and the port behind it; the listener's
/// own port where none is said. Nothing else is a place.
pub proof fn law_a_host_is_an_address_and_a_port(ip: Ipv4Addr, port: u16, value: Seq<char>)
    ensures
        host_of(ipv4_text(ip) + seq![':'] + decimal(port as nat)) == Some((ip, port)),
        host_of(ipv4_text(ip)) == Some((ip, 54925u16)),
        host_of(value) matches Some((host, p)) ==> value == ipv4_text(host) && p == 54925 || (
        text::begins(value, ipv4_text(host) + seq![':'])),
{
    let a = ipv4_text(ip);
    let b = decimal(port as nat);
    let at = a + seq![':'] + b;
    lemma_address_harmless(ip);
    text::lemma_split_first(a, ':', b);
    text::lemma_split_none(a, ':');
    text::lemma_index_of(a, ':');
    assert(at.take(a.len() as int) =~= a);
    assert(at.skip(a.len() as int + 1) =~= b);
    law_address_text_reads_back(ip);
    text::lemma_decimal_parses(port as nat, u16::MAX as nat);
    match split_once(value, ':') {
        Some((host, rest)) => {
            text::lemma_index_of(value, ':');
            match parse_ipv4(host) {
                Some(found) => {
                    law_nothing_else_reads_as_an_address(host);
                    let front = ipv4_text(found) + seq![':'];
                    assert(value.take(front.len() as int) =~= front);
                },
                None => {},
            }
        },
        None => {
            law_nothing_else_reads_as_an_address(value);
        },
    }
}

/// A token names the function that is written with it, and none but that.
pub proof fn law_a_token_names_its_function(token: Seq<char>, f: Function)
    ensures
        function_of(token) == Some(f) <==> token == f.token(),
{
    lemma_tokens_harmless(f);
    law_panel_numberings_are_injective(f, f);
    match function_of(token) {
        Some(g) => {
            law_panel_numberings_are_injective(f, g);
        },
        None => {},
    }
}

/// What is kept of a text for a name: its letters and digits, in order, up to the limit.
pub proof fn law_a_name_keeps_letters_and_digits(
    front: Seq<char>,
    c: char,
    rest: Seq<char>,
    limit: nat,
)
    requires
        all_alnum(front),
    ensures
        front.len() <= limit ==> first_alnums(front + rest, limit) == front + first_alnums(
            rest,
            (limit - front.len()) as nat,
        ),
        !is_alnum(c) ==> first_alnums(seq![c] + rest, limit) == first_alnums(rest, limit),
        front.len() >= limit ==> first_alnums(front + rest, limit) == front.take(limit as int),
        first_alnums(front, 0).len() == 0 && first_alnums(seq![], limit).len() == 0,
    decreases front.len(),
{
    assert((seq![c] + rest).drop_first() =~= rest);
    if front.len() == 0 {
        assert(front + rest =~= rest);
        assert(front + first_alnums(rest, limit) =~= first_alnums(rest, limit));
        assert(front.take(0) =~= seq![]);
    } else {
        let less = front.drop_first();
        let all = front + rest;
        assert(is_alnum(front[0]));
        assert(all[0] == front[0]);
        assert forall|i: int| 0 <= i < less.len() implies is_alnum(#[trigger] less[i]) by {
            assert(less[i] == front[i + 1]);
        }
        assert(all.drop_first() =~= less + rest);
        if limit > 0 {
            law_a_name_keeps_letters_and_digits(less, c, rest, (limit - 1) as nat);
            if front.len() <= limit {
                assert(first_alnums(all, limit) =~= front + first_alnums(
                    rest,
                    (limit - front.len()) as nat,
                ));
            }
            if front.len() >= limit {
                assert(first_alnums(all, limit) =~= front.take(limit as int));
            }
        } else {
            assert(front.take(0) =~= seq![]);
        }
    }
}

/// A device takes a name of one to fifteen letters and digits, and no other.
pub proof fn law_a_device_takes_short_plain_names(name: Seq<char>, i: int)
    ensures
        valid_user(name) <==> user_fault(name) is None,
        valid_user(name) ==> 1 <= name.len() <= 15,
        valid_user(name) && 0 <= i < name.len() ==> is_alnum(name[i]),
        1 <= name.len() <= 15 && (forall|j: int| 0 <= j < name.len() ==> is_alnum(#[trigger] name[j]))
            ==> valid_user(name),
{
}

/// An error is told with what was found, each thing in its place.
pub proof fn law_a_register_error_tells_what_was_found(e: RegisterErrorView)
    ensures
        ({
            let said = register_error_text(e);
            match e {
                RegisterErrorView::UserName { name, reason } => text::begins(said, quoted(name))
                    && text::ends(said, reason),
                RegisterErrorView::Duration(secs) => text::begins(
                    said,
                    "a lease of "@ + decimal(secs as nat),
                ),
                RegisterErrorView::MissingField(name) => text::ends(said, name + "= field"@),
                RegisterErrorView::BadField { field, value } => text::begins(
                    said,
                    "registration field "@ + field + "="@,
                ) && text::ends(said, quoted(value) + " is not valid"@),
            }
        }),
{
    let said = register_error_text(e);
    match e {
        RegisterErrorView::UserName { name, reason } => {
            let b = " cannot be used as a Brother scan destination name: "@;
            text::lemma_two_parts(quoted(name), b + reason);
            text::lemma_two_parts(quoted(name) + b, reason);
            assert(quoted(name) + (b + reason) =~= said);
        },
        RegisterErrorView::Duration(secs) => {
            text::lemma_two_parts(
                "a lease of "@ + decimal(secs as nat),
                " s does not fit Brother's DURATION field (1..=4294967295)"@,
            );
        },
        RegisterErrorView::MissingField(name) => {
            let a = "registration string has no "@;
            let b = name + "= field"@;
            text::lemma_two_parts(a, b);
            assert(a + b =~= said);
        },
        RegisterErrorView::BadField { field, value } => {
            let a = "registration field "@ + field + "="@;
            let b = quoted(value) + " is not valid"@;
            text::lemma_two_parts(a, b);
            assert(a + b =~= said);
        },
    }
}

} // verus!
