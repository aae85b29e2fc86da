//! Both directions of DNS-SD for a backend: one bounded browse window, and one record this
//! host publishes.
//!
//! A browse window watches one or more service types until its time is up and keeps
//! whatever resolved. The types are a priority order, and what the window found keeps it.
use mdns_sd::{IntoTxtProperties, ServiceInfo};
use vstd::prelude::*;

use crate::text;
use crate::text::{ends, holds, same_ignoring_case};

verus! {

// ------------------------------------------------------------------------------- records

/// One service instance: what a browse resolved, or what this host publishes.
#[derive(Debug, Clone, PartialEq, Eq)]
pub struct ServiceRecord {
    /// `<instance>.<service type>`.
    pub fullname: String,
    pub service_type: String,
    pub hostname: String,
    pub port: u16,
    pub addresses: Vec<String>,
    pub txt: Vec<(String, String)>,
    /// Whether the addresses follow the host's.
    pub addr_auto: bool,
}

/// What a [`ServiceRecord`] says.
pub struct ServiceRecordView {
    pub fullname: Seq<char>,
    pub service_type: Seq<char>,
    pub hostname: Seq<char>,
    pub port: u16,
    pub addresses: Seq<Seq<char>>,
    pub txt: Seq<(Seq<char>, Seq<char>)>,
    pub addr_auto: bool,
}

/// What TXT pairs say.
pub open spec fn txt_views(v: Seq<(String, String)>) -> Seq<(Seq<char>, Seq<char>)> {
    v.map_values(|p: (String, String)| (p.0@, p.1@))
}

impl View for ServiceRecord {
    type V = ServiceRecordView;

    open spec fn view(&self) -> ServiceRecordView {
        ServiceRecordView {
            fullname: self.fullname@,
            service_type: self.service_type@,
            hostname: self.hostname@,
            port: self.port,
            addresses: text::all_texts(self.addresses@),
            txt: txt_views(self.txt@),
            addr_auto: self.addr_auto,
        }
    }
}

// ---------------------------------------------------------------------------- TXT records

/// Whether a text is ASCII.
pub open spec fn ascii(s: Seq<char>) -> bool {
    forall|i: int| 0 <= i < s.len() ==> (#[trigger] s[i]) as u32 <= 0x7f
}

/// Whether every key of a TXT record is ASCII.
pub open spec fn ascii_keys(txt: Seq<(Seq<char>, Seq<char>)>) -> bool {
    forall|i: int| 0 <= i < txt.len() ==> ascii((#[trigger] txt[i]).0)
}

/// Whether some key of a TXT record holds an equals sign.
pub open spec fn equals_in_key(txt: Seq<(Seq<char>, Seq<char>)>) -> bool {
    exists|i: int| 0 <= i < txt.len() && (#[trigger] txt[i]).0.contains('=')
}

/// The value of the first pair whose key is `key` but for case.
pub open spec fn first_value(txt: Seq<(Seq<char>, Seq<char>)>, key: Seq<char>) -> Option<Seq<char>>
    decreases txt.len(),
{
    if txt.len() == 0 {
        None
    } else if same_ignoring_case(txt[0].0, key) {
        Some(txt[0].1)
    } else {
        first_value(txt.drop_first(), key)
    }
}

/// A TXT record without the pairs whose key, but for case, an earlier pair has.
pub open spec fn kept(txt: Seq<(Seq<char>, Seq<char>)>) -> Seq<(Seq<char>, Seq<char>)>
    decreases txt.len(),
{
    if txt.len() == 0 {
        seq![]
    } else {
        let front = txt.drop_last();
        if first_value(front, txt.last().0) is Some {
            kept(front)
        } else {
            kept(front).push(txt.last())
        }
    }
}

/// What `mdns_sd::TxtProperties::get_property_val_str` returns for a key, given the pairs
/// that the properties were made from.
pub uninterp spec fn txt_value(txt: Seq<(Seq<char>, Seq<char>)>, key: Seq<char>) -> Option<
    Seq<char>,
>;

/// `mdns_sd::TxtProperties::get_property_val_str`, on properties made from pairs by
/// `mdns_sd::IntoTxtProperties::into_txt_properties`. Keys are looked up regardless of case,
/// and the first pair of a key counts. Where all keys are ASCII that is stated here; what
/// the case of a letter is beyond ASCII is not.
#[verifier::external_body]
fn look_up(txt: &Vec<(String, String)>, key: &str) -> (r: Option<String>)
    ensures
        match r {
            Some(v) => txt_value(txt_views(txt@), key@) == Some(v@),
            None => txt_value(txt_views(txt@), key@) is None,
        },
        ascii_keys(txt_views(txt@)) && ascii(key@) ==> match r {
            Some(v) => first_value(txt_views(txt@), key@) == Some(v@),
            None => first_value(txt_views(txt@), key@) is None,
        },
{
    txt.as_slice().into_txt_properties().get_property_val_str(key).map(str::to_owned)
}

impl ServiceRecord {
    /// The value of a TXT key, looked up regardless of case.
    pub fn property(&self, key: &str) -> (r: Option<String>)
        ensures
            match r {
                Some(v) => txt_value(self@.txt, key@) == Some(v@),
                None => txt_value(self@.txt, key@) is None,
            },
            ascii_keys(self@.txt) && ascii(key@) ==> match r {
                Some(v) => first_value(self@.txt, key@) == Some(v@),
                None => first_value(self@.txt, key@) is None,
            },
    {
        look_up(&self.txt, key)
    }
}

// ------------------------------------------------------------------------------ publishing

/// Why a record was never published.
#[derive(Debug, Clone, PartialEq, Eq)]
pub enum RegisterError {
    /// No mDNS responder could be started at all.
    DaemonUnavailable(String),
    /// The instance, service type or TXT set is not something DNS-SD can carry.
    Malformed(String),
    /// The responder started and then refused the record.
    RegisterRefused(String),
}

/// What a [`RegisterError`] says.
pub enum RegisterErrorView {
    DaemonUnavailable(Seq<char>),
    Malformed(Seq<char>),
    RegisterRefused(Seq<char>),
}

impl View for RegisterError {
    type V = RegisterErrorView;

    open spec fn view(&self) -> RegisterErrorView {
        match *self {
            RegisterError::DaemonUnavailable(s) => RegisterErrorView::DaemonUnavailable(s@),
            RegisterError::Malformed(s) => RegisterErrorView::Malformed(s@),
            RegisterError::RegisterRefused(s) => RegisterErrorView::RegisterRefused(s@),
        }
    }
}

/// The sentence that an error is reported with.
pub open spec fn register_error_text(e: RegisterErrorView) -> Seq<char> {
    match e {
        RegisterErrorView::DaemonUnavailable(s) => "failed to start mDNS responder: "@ + s,
        RegisterErrorView::Malformed(s) => "cannot publish this record: "@ + s,
        RegisterErrorView::RegisterRefused(s) => "failed to register "@ + s,
    }
}

impl RegisterError {
    /// The sentence that this error is reported with.
    pub fn to_text(&self) -> (r: String)
        ensures
            r@ == register_error_text(self@),
    {
        match self {
            RegisterError::DaemonUnavailable(s) => {
                let mut out = "failed to start mDNS responder: ".to_owned();
                out.append(s.as_str());
                out
            },
            RegisterError::Malformed(s) => {
                let mut out = "cannot publish this record: ".to_owned();
                out.append(s.as_str());
                out
            },
            RegisterError::RegisterRefused(s) => {
                let mut out = "failed to register ".to_owned();
                out.append(s.as_str());
                out
            },
        }
    }
}

/// What `mdns_sd::ServiceInfo::new` says of a TXT record that it refuses; nothing of one
/// that it takes.
pub uninterp spec fn txt_refusal(txt: Seq<(Seq<char>, Seq<char>)>) -> Option<Seq<char>>;

/// A host name as a record holds it: one that ends in `.local.` twice loses the second.
pub open spec fn normal_host(host: Seq<char>) -> Seq<char> {
    if ends(host, ".local.local."@) {
        host.take(host.len() - 6)
    } else {
        host
    }
}

/// Whether `t` is a service type without its subtype: what stands behind the last `._sub.`,
/// or the whole where there is none.
pub open spec fn is_base_type(t: Seq<char>, service_type: Seq<char>) -> bool {
    if holds(service_type, "._sub."@) {
        &&& ends(service_type, "._sub."@ + t)
        &&& !holds(("._sub."@ + t).drop_first(), "._sub."@)
    } else {
        t == service_type
    }
}

/// What a described record says, its TXT pairs apart.
pub open spec fn describes(
    x: ServiceRecordView,
    service_type: Seq<char>,
    instance: Seq<char>,
    host: Seq<char>,
    port: u16,
) -> bool {
    &&& is_base_type(x.service_type, service_type)
    &&& x.fullname == instance + "."@ + x.service_type
    &&& x.hostname == normal_host(host)
    &&& x.port == port
    &&& x.addresses.len() == 0
    &&& x.addr_auto
}

/// `mdns_sd::ServiceInfo::new` without addresses, then
/// `mdns_sd::ServiceInfo::enable_addr_auto`, read back through `is_addr_auto` and
/// `as_resolved_service`. A subtype in the service type is kept out of the record's name.
/// The record is refused for its TXT keys alone: never where they are ASCII and free of
/// equals signs, always where one holds an equals sign. It carries the pairs in order,
/// without those whose key an earlier one has but for case. What becomes of keys beyond
/// ASCII is not stated.
#[verifier::external_body]
fn describe(
    service_type: &str,
    instance: &str,
    host: &str,
    port: u16,
    txt: &Vec<(String, String)>,
) -> (r: Result<ServiceRecord, String>)
    ensures
        match r {
            Ok(x) => {
                &&& txt_refusal(txt_views(txt@)) is None
                &&& !equals_in_key(txt_views(txt@))
                &&& describes(x@, service_type@, instance@, host@, port)
                &&& ascii_keys(txt_views(txt@)) ==> x@.txt == kept(txt_views(txt@))
            },
            Err(e) => {
                &&& txt_refusal(txt_views(txt@)) == Some(e@)
                &&& !ascii_keys(txt_views(txt@)) || equals_in_key(txt_views(txt@))
            },
        },
{
    let made = ServiceInfo::new(service_type, instance, host, (), port, txt.as_slice());
    let info = made.map_err(|error| error.to_string())?.enable_addr_auto();
    let addr_auto = info.is_addr_auto();
    let r = info.as_resolved_service();
    let pairs = r.txt_properties.iter();
    Ok(ServiceRecord {
        fullname: r.fullname,
        service_type: r.ty_domain,
        hostname: r.host,
        port: r.port,
        addresses: r.addresses.iter().map(ToString::to_string).collect(),
        txt: pairs.map(|p| (p.key().to_owned(), p.val_str().to_owned())).collect(),
        addr_auto,
    })
}

/// Describe the record for `instance` of `service_type` on `port`, with `txt` as its TXT
/// record. Its addresses are left to the responder.
pub fn service_info(
    service_type: &str,
    instance: &str,
    port: u16,
    txt: &Vec<(String, String)>,
) -> (r: Result<ServiceRecord, RegisterError>)
    ensures
        match r {
            Ok(x) => {
                &&& txt_refusal(txt_views(txt@)) is None
                &&& !equals_in_key(txt_views(txt@))
                &&& describes(x@, service_type@, instance@, instance@ + ".local."@, port)
                &&& ascii_keys(txt_views(txt@)) ==> x@.txt == kept(txt_views(txt@))
            },
            Err(e) => {
                &&& txt_refusal(txt_views(txt@)) matches Some(why) && e@
                    == RegisterErrorView::Malformed(
                    instance@ + "."@ + service_type@ + ": "@ + why,
                )
                &&& !ascii_keys(txt_views(txt@)) || equals_in_key(txt_views(txt@))
            },
        },
{
    let mut host = instance.to_owned();
    host.append(".local.");
    match describe(service_type, instance, host.as_str(), port, txt) {
        Ok(record) => Ok(record),
        Err(error) => {
            let mut detail = instance.to_owned();
            detail.append(".");
            detail.append(service_type);
            detail.append(": ");
            detail.append(error.as_str());
            Err(RegisterError::Malformed(detail))
        },
    }
}

/// What became of a record that was handed to a responder.
#[derive(Debug)]
pub enum Responder {
    /// No responder could be started, for this reason.
    Unavailable(String),
    /// The responder refused the record, for this reason.
    Refused(String),
    /// The record is up.
    Published,
}

/// A published record.
#[derive(Debug, PartialEq, Eq)]
pub struct Registration {
    fullname: String,
}

impl View for Registration {
    type V = Seq<char>;

    closed spec fn view(&self) -> Seq<char> {
        self.fullname@
    }
}

impl Registration {
    /// The published `<instance>.<service_type>`, as clients see it.
    pub fn fullname(&self) -> (r: &str)
        ensures
            r@ == self@,
    {
        self.fullname.as_str()
    }
}

/// What comes of publishing a record, from what became of it at the responder.
pub fn register(service: &ServiceRecord, outcome: Responder) -> (r: Result<
    Registration,
    RegisterError,
>)
    ensures
        match outcome {
            Responder::Unavailable(why) => r matches Err(e) && e@
                == RegisterErrorView::DaemonUnavailable(why@),
            Responder::Refused(why) => r matches Err(e) && e@
                == RegisterErrorView::RegisterRefused(service@.fullname + ": "@ + why@),
            Responder::Published => r matches Ok(x) && x@ == service@.fullname,
        },
{
    match outcome {
        Responder::Unavailable(why) => Err(RegisterError::DaemonUnavailable(why)),
        Responder::Refused(why) => {
            let mut detail = service.fullname.clone();
            detail.append(": ");
            detail.append(why.as_str());
            Err(RegisterError::RegisterRefused(detail))
        },
        Responder::Published => Ok(Registration { fullname: service.fullname.clone() }),
    }
}

// -------------------------------------------------------------------------------- browsing

/// What several records say.
pub open spec fn bucket_view(v: Seq<ServiceRecord>) -> Seq<ServiceRecordView> {
    v.map_values(|r: ServiceRecord| r@)
}

/// The names of several records.
pub open spec fn fullnames(v: Seq<ServiceRecordView>) -> Seq<Seq<char>> {
    v.map_values(|r: ServiceRecordView| r.fullname)
}

/// A bucket with one more record: in the place of the one of the same name, or at the end.
pub open spec fn recorded(
    bucket: Seq<ServiceRecordView>,
    service: ServiceRecordView,
) -> Seq<ServiceRecordView> {
    let i = text::index_of(fullnames(bucket), service.fullname);
    if i < bucket.len() {
        bucket.update(i, service)
    } else {
        bucket.push(service)
    }
}

/// Insert `service`, or replace the record already held for the same instance.
pub fn record(bucket: &mut Vec<ServiceRecord>, service: ServiceRecord)
    ensures
        bucket_view(final(bucket)@) == recorded(bucket_view(old(bucket)@), service@),
{
    let ghost before = bucket@;
    let ghost names = fullnames(bucket_view(before));
    let mut i: usize = 0;
    while i < bucket.len() && !text::same(bucket[i].fullname.as_str(), service.fullname.as_str())
        invariant
            bucket@ == before,
            names == fullnames(bucket_view(before)),
            i <= bucket@.len(),
            forall|j: int| 0 <= j < i ==> (#[trigger] names[j]) != service@.fullname,
        decreases bucket@.len() - i,
    {
        i = i + 1;
    }
    proof {
        text::lemma_index_of(names, service@.fullname);
        if i < before.len() {
            assert(names[i as int] == service@.fullname);
            text::lemma_index_of_is(names, service@.fullname, i as int);
        } else {
            assert(!names.contains(service@.fullname));
        }
    }
    let ghost said = service@;
    if i < bucket.len() {
        bucket.set(i, service);
        assert(bucket_view(bucket@) =~= bucket_view(before).update(i as int, said));
    } else {
        bucket.push(service);
        assert(bucket_view(bucket@) =~= bucket_view(before).push(said));
    }
}

/// Why a browse window never opened.
#[derive(Debug, Clone, PartialEq, Eq)]
pub enum BrowseError {
    /// No mDNS browser could be started at all.
    DaemonUnavailable(String),
    /// The browser started but refused every service type it was given.
    BrowseRefused(String),
}

/// What a [`BrowseError`] says.
pub enum BrowseErrorView {
    DaemonUnavailable(Seq<char>),
    BrowseRefused(Seq<char>),
}

impl View for BrowseError {
    type V = BrowseErrorView;

    open spec fn view(&self) -> BrowseErrorView {
        match *self {
            BrowseError::DaemonUnavailable(s) => BrowseErrorView::DaemonUnavailable(s@),
            BrowseError::BrowseRefused(s) => BrowseErrorView::BrowseRefused(s@),
        }
    }
}

/// The sentence that an error is reported with.
pub open spec fn browse_error_text(e: BrowseErrorView) -> Seq<char> {
    match e {
        BrowseErrorView::DaemonUnavailable(s) => "failed to start mDNS browser: "@ + s,
        BrowseErrorView::BrowseRefused(s) => "failed to browse "@ + s,
    }
}

impl BrowseError {
    /// The sentence that this error is reported with.
    pub fn to_text(&self) -> (r: String)
        ensures
            r@ == browse_error_text(self@),
    {
        match self {
            BrowseError::DaemonUnavailable(s) => {
                let mut out = "failed to start mDNS browser: ".to_owned();
                out.append(s.as_str());
                out
            },
            BrowseError::BrowseRefused(s) => {
                let mut out = "failed to browse ".to_owned();
                out.append(s.as_str());
                out
            },
        }
    }
}

/// What came of asking the browser for one service type.
#[derive(Debug)]
pub enum Attempt {
    /// It watches the type.
    Watched,
    /// It refused the type, for this reason.
    Refused { service_type: String, reason: String },
}

/// How many types a browser watches.
pub open spec fn watched_count(attempts: Seq<Attempt>) -> nat
    decreases attempts.len(),
{
    if attempts.len() == 0 {
        0
    } else {
        watched_count(attempts.drop_last()) + match attempts.last() {
            Attempt::Watched => 1nat,
            Attempt::Refused { .. } => 0nat,
        }
    }
}

/// What a browser said of the types that it refused, in order.
pub open spec fn refusal_text(attempts: Seq<Attempt>) -> Seq<char>
    decreases attempts.len(),
{
    if attempts.len() == 0 {
        seq![]
    } else {
        let front = refusal_text(attempts.drop_last());
        match attempts.last() {
            Attempt::Watched => front,
            Attempt::Refused { service_type, reason } => {
                let one = service_type@ + ": "@ + reason@;
                if watched_count(attempts.drop_last()) == attempts.drop_last().len() {
                    one
                } else {
                    front + "; "@ + one
                }
            },
        }
    }
}

/// What happens inside a browse window.
#[derive(Debug)]
pub enum BrowseEvent {
    /// An instance of the type with this place among the watched ones resolved.
    Resolved { index: usize, service: ServiceRecord },
    /// Something else was heard.
    Other,
    /// The type with this place is no longer watched.
    Disconnected { index: usize },
}

/// An open browse window: what has resolved of each watched type, and which types still are
/// watched.
#[derive(Debug)]
pub struct Browse {
    buckets: Vec<Vec<ServiceRecord>>,
    watching: Vec<bool>,
}

/// What a [`Browse`] says.
pub struct BrowseView {
    pub buckets: Seq<Seq<ServiceRecordView>>,
    pub watching: Seq<bool>,
}

/// What several buckets hold.
pub open spec fn bucket_views(v: Seq<Vec<ServiceRecord>>) -> Seq<Seq<ServiceRecordView>> {
    v.map_values(|b: Vec<ServiceRecord>| bucket_view(b@))
}

impl View for Browse {
    type V = BrowseView;

    closed spec fn view(&self) -> BrowseView {
        BrowseView { buckets: bucket_views(self.buckets@), watching: self.watching@ }
    }
}

/// A window on `n` types in which nothing has happened yet.
pub open spec fn opened(n: nat) -> BrowseView {
    BrowseView { buckets: Seq::new(n, |i: int| seq![]), watching: Seq::new(n, |i: int| true) }
}

/// A window after one more event.
pub open spec fn browse_step(s: BrowseView, event: BrowseEvent) -> BrowseView {
    match event {
        BrowseEvent::Resolved { index, service } => if index < s.buckets.len() {
            BrowseView {
                buckets: s.buckets.update(
                    index as int,
                    recorded(s.buckets[index as int], service@),
                ),
                ..s
            }
        } else {
            s
        },
        BrowseEvent::Other => s,
        BrowseEvent::Disconnected { index } => if index < s.watching.len() {
            BrowseView { watching: s.watching.update(index as int, false), ..s }
        } else {
            s
        },
    }
}

/// Everything in several buckets, in order.
pub open spec fn flattened(buckets: Seq<Seq<ServiceRecordView>>) -> Seq<ServiceRecordView>
    decreases buckets.len(),
{
    if buckets.len() == 0 {
        seq![]
    } else {
        flattened(buckets.drop_last()) + buckets.last()
    }
}

impl Browse {
    /// The window that opens once the browser has been asked for every type, in their order
    /// of priority. A type that is refused leaves the others be; where every type of some
    /// is, no window opens.
    pub fn open(attempts: &Vec<Attempt>) -> (r: Result<Browse, BrowseError>)
        ensures
            if watched_count(attempts@) == 0 && attempts@.len() > 0 {
                r matches Err(e) && e@ == BrowseErrorView::BrowseRefused(refusal_text(attempts@))
            } else {
                r matches Ok(b) && b@ == opened(watched_count(attempts@))
            },
    {
        let mut buckets: Vec<Vec<ServiceRecord>> = Vec::new();
        let mut watching: Vec<bool> = Vec::new();
        let mut refusals = String::new();
        let mut refused = false;
        let mut i: usize = 0;
        assert(attempts@.take(0) =~= Seq::<Attempt>::empty());
        while i < attempts.len()
            invariant
                i <= attempts@.len(),
                buckets@.len() == watched_count(attempts@.take(i as int)),
                watching@.len() == buckets@.len(),
                buckets@.len() <= i,
                refused == (buckets@.len() < i),
                forall|j: int| 0 <= j < buckets@.len() ==> (#[trigger] buckets@[j])@.len() == 0,
                forall|j: int| 0 <= j < watching@.len() ==> #[trigger] watching@[j],
                refusals@ == refusal_text(attempts@.take(i as int)),
            decreases attempts@.len() - i,
        {
            proof {
                assert(attempts@.take(i + 1).last() == attempts@[i as int]);
                assert(attempts@.take(i + 1).drop_last() =~= attempts@.take(i as int));
            }
            match &attempts[i] {
                Attempt::Watched => {
                    buckets.push(Vec::new());
                    watching.push(true);
                },
                Attempt::Refused { service_type, reason } => {
                    let mut one = service_type.clone();
                    one.append(": ");
                    one.append(reason.as_str());
                    if refused {
                        refusals.append("; ");
                        refusals.append(one.as_str());
                        assert(refusals@ =~= refusal_text(attempts@.take(i as int)) + "; "@
                            + one@);
                    } else {
                        refusals = one;
                    }
                    refused = true;
                },
            }
            i = i + 1;
        }
        assert(attempts@.take(i as int) =~= attempts@);
        if buckets.len() == 0 && attempts.len() > 0 {
            return Err(BrowseError::BrowseRefused(refusals));
        }
        let b = Browse { buckets, watching };
        proof {
            let n = watched_count(attempts@);
            assert(b@.watching =~= opened(n).watching);
            assert(b@.buckets =~= opened(n).buckets) by {
                assert forall|j: int| 0 <= j < b@.buckets.len() implies b@.buckets[j]
                    == opened(n).buckets[j] by {
                    assert(b@.buckets[j] == bucket_view(b.buckets@[j]@));
                    assert(b@.buckets[j] =~= seq![]);
                }
            }
        }
        Ok(b)
    }

    /// Whether any type is still watched.
    pub fn is_watching(&self) -> (r: bool)
        ensures
            r == self@.watching.contains(true),
    {
        let mut i: usize = 0;
        while i < self.watching.len()
            invariant
                i <= self.watching@.len(),
                forall|j: int| 0 <= j < i ==> !(#[trigger] self.watching@[j]),
            decreases self.watching@.len() - i,
        {
            if self.watching[i] {
                assert(self.watching@[i as int] == true);
                return true;
            }
            i = i + 1;
        }
        false
    }

    /// Whether the type with a place among the watched ones still is watched.
    pub fn watches(&self, index: usize) -> (r: bool)
        ensures
            r == (index < self@.watching.len() && self@.watching[index as int]),
    {
        index < self.watching.len() && self.watching[index]
    }

    /// Take in what happened.
    pub fn step(&mut self, event: BrowseEvent)
        ensures
            final(self)@ == browse_step(old(self)@, event),
    {
        let ghost before = self.buckets@;
        match event {
            BrowseEvent::Resolved { index, service } => {
                if index < self.buckets.len() {
                    let ghost said = service@;
                    let mut bucket = self.buckets.remove(index);
                    assert(bucket == before[index as int]);
                    record(&mut bucket, service);
                    let ghost held = bucket_view(bucket@);
                    self.buckets.insert(index, bucket);
                    proof {
                        assert(self.buckets@ =~= before.update(index as int, bucket));
                        assert(bucket_views(self.buckets@) =~= bucket_views(before).update(
                            index as int,
                            held,
                        ));
                    }
                }
            },
            BrowseEvent::Other => {},
            BrowseEvent::Disconnected { index } => {
                if index < self.watching.len() {
                    self.watching.set(index, false);
                }
            },
        }
    }

    /// What the window found: everything of the first type, then of the second, and so on,
    /// each in the order in which the instances resolved.
    pub fn finish(self) -> (r: Vec<ServiceRecord>)
        ensures
            bucket_view(r@) == flattened(self@.buckets),
    {
        let mut buckets = self.buckets;
        let ghost all = bucket_views(buckets@);
        let mut out: Vec<ServiceRecord> = Vec::new();
        let mut done: usize = 0;
        let ghost held = buckets@;
        let total: usize = buckets.len();
        assert(all.take(0) =~= Seq::<Seq<ServiceRecordView>>::empty());
        assert(bucket_view(out@) =~= seq![]);
        while done < total
            invariant
                done <= total,
                held.len() == total,
                buckets@.len() == total - done,
                buckets@ =~= held.skip(done as int),
                all == bucket_views(held),
                bucket_view(out@) == flattened(all.take(done as int)),
            decreases total - done,
        {
            let ghost before = out@;
            let mut bucket = buckets.remove(0);
            let ghost items = bucket@;
            proof {
                assert(bucket == held[done as int]);
                assert(all.take(done + 1).last() == bucket_view(items));
                assert(all.take(done + 1).drop_last() =~= all.take(done as int));
            }
            out.append(&mut bucket);
            assert(bucket_view(out@) =~= bucket_view(before) + bucket_view(items));
            done = done + 1;
        }
        assert(all.take(done as int) =~= all);
        out
    }
}

// ------------------------------------------------------------------------------------ laws

/// What a window found keeps the order of its types: everything of the types before one,
/// then what that one has, then everything of the types behind it.
pub proof fn law_types_are_a_priority_order(buckets: Seq<Seq<ServiceRecordView>>, i: int)
    requires
        0 <= i < buckets.len(),
    ensures
        flattened(buckets) == flattened(buckets.take(i)) + buckets[i] + flattened(
            buckets.skip(i + 1),
        ),
    decreases buckets.len(),
{
    if i == buckets.len() - 1 {
        assert(buckets.take(i) =~= buckets.drop_last());
        assert(buckets.skip(i + 1) =~= seq![]);
        assert(flattened(buckets) =~= flattened(buckets.take(i)) + buckets[i] + flattened(
            buckets.skip(i + 1),
        ));
    } else {
        let front = buckets.drop_last();
        law_types_are_a_priority_order(front, i);
        assert(front.take(i) =~= buckets.take(i));
        assert(front.skip(i + 1) =~= buckets.skip(i + 1).drop_last());
        assert(buckets.skip(i + 1).last() == buckets.last());
        assert(flattened(buckets) =~= flattened(buckets.take(i)) + buckets[i] + flattened(
            buckets.skip(i + 1),
        ));
    }
}

/// An instance that resolves again keeps its place in the order and has its newest record;
/// one that resolves for the first time comes last. No other record changes.
pub proof fn law_resolving_again_keeps_the_place(
    bucket: Seq<ServiceRecordView>,
    service: ServiceRecordView,
)
    ensures
        fullnames(bucket).contains(service.fullname) ==> fullnames(recorded(bucket, service))
            == fullnames(bucket),
        !fullnames(bucket).contains(service.fullname) ==> recorded(bucket, service)
            == bucket.push(service),
        recorded(bucket, service).contains(service),
        forall|i: int|
            0 <= i < bucket.len() && (#[trigger] bucket[i]).fullname != service.fullname
                ==> recorded(bucket, service)[i] == bucket[i],
{
    let names = fullnames(bucket);
    text::lemma_index_of(names, service.fullname);
    let i = text::index_of(names, service.fullname);
    let r = recorded(bucket, service);
    if i < bucket.len() {
        assert(r[i] == service);
        assert(bucket[i].fullname == names[i]);
        assert(fullnames(r) =~= names);
    } else {
        assert(r[bucket.len() as int] == service);
    }
}

/// A bucket never holds an instance twice.
pub proof fn law_an_instance_is_held_once(
    bucket: Seq<ServiceRecordView>,
    service: ServiceRecordView,
)
    requires
        fullnames(bucket).no_duplicates(),
    ensures
        fullnames(recorded(bucket, service)).no_duplicates(),
{
    let names = fullnames(bucket);
    text::lemma_index_of(names, service.fullname);
    law_resolving_again_keeps_the_place(bucket, service);
    if !names.contains(service.fullname) {
        assert(fullnames(recorded(bucket, service)) =~= names.push(service.fullname));
    }
}

/// A browser that goes away stops its own type being watched, and nothing else: what has
/// resolved stays, and the other types are watched as before.
pub proof fn law_a_disconnect_stops_one_type(s: BrowseView, index: usize)
    requires
        index < s.watching.len(),
    ensures
        browse_step(s, BrowseEvent::Disconnected { index }).buckets == s.buckets,
        !browse_step(s, BrowseEvent::Disconnected { index }).watching[index as int],
        forall|i: int|
            0 <= i < s.watching.len() && i != index ==> #[trigger] browse_step(
                s,
                BrowseEvent::Disconnected { index },
            ).watching[i] == s.watching[i],
{
}

proof fn lemma_first_value_push(
    txt: Seq<(Seq<char>, Seq<char>)>,
    last: (Seq<char>, Seq<char>),
    key: Seq<char>,
)
    ensures
        first_value(txt.push(last), key) == (match first_value(txt, key) {
            Some(v) => Some(v),
            None => if same_ignoring_case(last.0, key) {
                Some(last.1)
            } else {
                None
            },
        }),
    decreases txt.len(),
{
    let more = txt.push(last);
    if txt.len() == 0 {
        assert(more.drop_first() =~= seq![]);
    } else {
        assert(more.drop_first() =~= txt.drop_first().push(last));
        lemma_first_value_push(txt.drop_first(), last, key);
    }
}

proof fn lemma_first_value_case(
    txt: Seq<(Seq<char>, Seq<char>)>,
    a: Seq<char>,
    b: Seq<char>,
)
    requires
        same_ignoring_case(a, b),
    ensures
        first_value(txt, a) == first_value(txt, b),
    decreases txt.len(),
{
    if txt.len() > 0 {
        lemma_first_value_case(txt.drop_first(), a, b);
    }
}

/// Dropping the later pairs of a key drops no value that a client would read.
pub proof fn law_published_values_read_back(txt: Seq<(Seq<char>, Seq<char>)>, key: Seq<char>)
    ensures
        first_value(kept(txt), key) == first_value(txt, key),
    decreases txt.len(),
{
    if txt.len() > 0 {
        let front = txt.drop_last();
        law_published_values_read_back(front, key);
        lemma_first_value_push(front, txt.last(), key);
        lemma_first_value_push(kept(front), txt.last(), key);
        assert(front.push(txt.last()) =~= txt);
        if same_ignoring_case(txt.last().0, key) {
            lemma_first_value_case(front, txt.last().0, key);
        }
    }
}

/// A TXT record whose keys all differ, case apart, is carried as it is.
pub proof fn law_distinct_keys_are_carried_verbatim(txt: Seq<(Seq<char>, Seq<char>)>)
    requires
        forall|i: int, j: int|
            0 <= i < j < txt.len() ==> !same_ignoring_case(
                (#[trigger] txt[i]).0,
                (#[trigger] txt[j]).0,
            ),
    ensures
        kept(txt) == txt,
    decreases txt.len(),
{
    if txt.len() == 0 {
        assert(kept(txt) =~= txt);
    } else {
        let front = txt.drop_last();
        assert forall|i: int, j: int| 0 <= i < j < front.len() implies !same_ignoring_case(
            (#[trigger] front[i]).0,
            (#[trigger] front[j]).0,
        ) by {
            assert(front[i] == txt[i] && front[j] == txt[j]);
        }
        law_distinct_keys_are_carried_verbatim(front);
        assert forall|i: int| 0 <= i < front.len() implies !same_ignoring_case(
            (#[trigger] front[i]).0,
            txt.last().0,
        ) by {
            assert(front[i] == txt[i]);
            assert(txt[txt.len() - 1] == txt.last());
        }
        lemma_absent(front, txt.last().0);
        assert(kept(txt) =~= txt);
    }
}

proof fn lemma_absent(txt: Seq<(Seq<char>, Seq<char>)>, key: Seq<char>)
    requires
        forall|i: int| 0 <= i < txt.len() ==> !same_ignoring_case((#[trigger] txt[i]).0, key),
    ensures
        first_value(txt, key) is None,
    decreases txt.len(),
{
    if txt.len() > 0 {
        assert(!same_ignoring_case(txt[0].0, key));
        assert forall|i: int| 0 <= i < txt.drop_first().len() implies !same_ignoring_case(
            (#[trigger] txt.drop_first()[i]).0,
            key,
        ) by {
            assert(txt.drop_first()[i] == txt[i + 1]);
        }
        lemma_absent(txt.drop_first(), key);
    }
}

/// What resolves and what goes away concerns its own type alone: every other bucket and every
/// other watch is as before, and nothing but a disconnect ends one.
pub proof fn law_an_event_concerns_its_own_type(s: BrowseView, event: BrowseEvent, i: int)
    requires
        s.buckets.len() == s.watching.len(),
        0 <= i < s.buckets.len(),
    ensures
        ({
            let t = browse_step(s, event);
            &&& t.buckets.len() == s.buckets.len() && t.watching.len() == s.watching.len()
            &&& t.buckets[i] != s.buckets[i] ==> event is Resolved && event->Resolved_index == i
            &&& t.watching[i] != s.watching[i] ==> event is Disconnected
                && event->Disconnected_index == i
            &&& event is Resolved && event->Resolved_index == i ==> t.buckets[i].contains(
                event->service@,
            )
            &&& event is Other ==> t == s
        }),
{
    match event {
        BrowseEvent::Resolved { index, service } => {
            law_resolving_again_keeps_the_place(s.buckets[index as int], service@);
        },
        _ => {},
    }
}

/// A window opens on as many types as are watched: none exactly where every one was refused.
/// Every refusal is told with its type and its reason.
pub proof fn law_one_type_opens_a_window(attempts: Seq<Attempt>, i: int)
    requires
        0 <= i < attempts.len(),
    ensures
        watched_count(attempts) == attempts.filter(|a: Attempt| a is Watched).len(),
        attempts[i] is Watched ==> watched_count(attempts) > 0,
        watched_count(attempts) == attempts.len() ==> attempts[i] is Watched,
        attempts[i] matches Attempt::Refused { service_type, reason } ==> text::holds(
            refusal_text(attempts),
            service_type@ + ": "@ + reason@,
        ),
        opened(watched_count(attempts)).buckets.len() == watched_count(attempts),
        forall|j: int|
            0 <= j < watched_count(attempts) ==> #[trigger] opened(
                watched_count(attempts),
            ).watching[j] && opened(watched_count(attempts)).buckets[j].len() == 0,
    decreases attempts.len(),
{
    lemma_watched(attempts);
    lemma_refusal_told(attempts, i);
}

proof fn lemma_watched(attempts: Seq<Attempt>)
    ensures
        watched_count(attempts) == attempts.filter(|a: Attempt| a is Watched).len(),
        watched_count(attempts) <= attempts.len(),
        forall|i: int|
            0 <= i < attempts.len() && (#[trigger] attempts[i]) is Watched ==> watched_count(
                attempts,
            ) > 0,
        forall|i: int|
            0 <= i < attempts.len() && !((#[trigger] attempts[i]) is Watched) ==> watched_count(
                attempts,
            ) < attempts.len(),
    decreases attempts.len(),
{
    reveal(Seq::filter);
    if attempts.len() > 0 {
        let less = attempts.drop_last();
        lemma_watched(less);
        assert forall|i: int| 0 <= i < attempts.len() && (#[trigger] attempts[i]) is Watched implies
            watched_count(attempts) > 0 by {
            if i < less.len() {
                assert(less[i] is Watched);
            }
        }
        assert forall|i: int|
            0 <= i < attempts.len() && !((#[trigger] attempts[i]) is Watched) implies
            watched_count(attempts) < attempts.len() by {
            if i < less.len() {
                assert(!(less[i] is Watched));
            }
        }
    }
}

proof fn lemma_refusal_told(attempts: Seq<Attempt>, i: int)
    requires
        0 <= i < attempts.len(),
    ensures
        attempts[i] matches Attempt::Refused { service_type, reason } ==> exists|at: int|
            #[trigger] text::occurs_at(
                refusal_text(attempts),
                service_type@ + ": "@ + reason@,
                at,
            ) && at >= 0,
        attempts[i] matches Attempt::Refused { service_type, reason } ==> text::holds(
            refusal_text(attempts),
            service_type@ + ": "@ + reason@,
        ),
    decreases attempts.len(),
{
    match attempts[i] {
        Attempt::Refused { service_type, reason } => {
            let one = service_type@ + ": "@ + reason@;
            let less = attempts.drop_last();
            let all = refusal_text(attempts);
            let front = refusal_text(less);
            text::lemma_find(all, one);
            lemma_watched(less);
            if i < less.len() {
                lemma_refusal_told(less, i);
                assert(less[i] == attempts[i]);
                assert(!(less[i] is Watched));
                assert(watched_count(less) < less.len());
                let at = choose|at: int| #[trigger] text::occurs_at(front, one, at) && at >= 0;
                assert(all.subrange(at, at + one.len()) =~= front.subrange(at, at + one.len()));
                assert(text::occurs_at(all, one, at));
            } else {
                let at: int = all.len() - one.len();
                assert(all.subrange(at, at + one.len()) =~= one);
                assert(text::occurs_at(all, one, at));
            }
        },
        _ => {},
    }
}

/// A host under `.local.` is never said to be so twice, and any other name is as it was given.
pub proof fn law_a_host_is_local_once(host: Seq<char>, other: Seq<char>)
    requires
        !ends(other, ".local.local."@),
    ensures
        normal_host(host + ".local.local."@) == host + ".local."@,
        normal_host(other) == other,
{
    reveal_strlit(".local.local.");
    reveal_strlit(".local.");
    let twice = host + ".local.local."@;
    assert(twice.skip(twice.len() - 13) =~= ".local.local."@);
    assert(twice.take(twice.len() - 6) =~= host + ".local."@);
}

/// A client reads the first value of a key, whatever the case of its letters.
pub proof fn law_the_first_value_counts(
    txt: Seq<(Seq<char>, Seq<char>)>,
    key: Seq<char>,
    i: int,
)
    requires
        0 <= i < txt.len() && text::lower(txt[i].0) == text::lower(key),
        forall|j: int| 0 <= j < i ==> text::lower((#[trigger] txt[j]).0) != text::lower(key),
    ensures
        first_value(txt, key) == Some(txt[i].1),
    decreases txt.len(),
{
    if i > 0 {
        let less = txt.drop_first();
        assert(text::lower(txt[0].0) != text::lower(key));
        assert(less[i - 1] == txt[i]);
        assert forall|j: int| 0 <= j < i - 1 implies text::lower((#[trigger] less[j]).0)
            != text::lower(key) by {
            let k: int = j + 1;
            assert(text::lower(txt[k].0) != text::lower(key));
        }
        law_the_first_value_counts(less, key, i - 1);
    }
}

/// A failure to browse or to publish is told with its reason, and one is never told as the
/// other.
pub proof fn law_a_failure_tells_its_reason(e: RegisterErrorView, b: BrowseErrorView, s: Seq<char>)
    ensures
        e == RegisterErrorView::DaemonUnavailable(s) || e == RegisterErrorView::Malformed(s) || e
            == RegisterErrorView::RegisterRefused(s) ==> text::ends(register_error_text(e), s),
        b == BrowseErrorView::DaemonUnavailable(s) || b == BrowseErrorView::BrowseRefused(s)
            ==> text::ends(browse_error_text(b), s),
        e is Malformed <==> text::begins(register_error_text(e), "cannot publish"@),
{
    reveal_strlit("cannot publish");
    reveal_strlit("cannot publish this record: ");
    reveal_strlit("failed to start mDNS responder: ");
    reveal_strlit("failed to register ");
    match e {
        RegisterErrorView::DaemonUnavailable(t) => {
            text::lemma_two_parts("failed to start mDNS responder: "@, t);
            assert(register_error_text(e)[0] == 'f');
        },
        RegisterErrorView::Malformed(t) => {
            text::lemma_two_parts("cannot publish this record: "@, t);
            assert(register_error_text(e).take(14) =~= "cannot publish"@);
        },
        RegisterErrorView::RegisterRefused(t) => {
            text::lemma_two_parts("failed to register "@, t);
            assert(register_error_text(e)[0] == 'f');
        },
    }
    if text::begins(register_error_text(e), "cannot publish"@) {
        assert(register_error_text(e).take(14)[0] == register_error_text(e)[0]);
    }
    match b {
        BrowseErrorView::DaemonUnavailable(t) => {
            text::lemma_two_parts("failed to start mDNS browser: "@, t);
        },
        BrowseErrorView::BrowseRefused(t) => {
            text::lemma_two_parts("failed to browse "@, t);
        },
    }
}

} // verus!
