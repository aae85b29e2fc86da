//! What `scanimage -L` says: one sighting per line, and what can be read off a device name.
use vstd::prelude::*;
use vstd::slice::slice_subrange;

use crate::model::{either, optional};
use crate::text;
use crate::text::{
    after_prefix, are_pairs, begins, drop_leading, drop_trailing, find, holds, is_alnum, is_digit, lines,
    decimal, lower, parse_unsigned, query_of, split, split_once, trim, upper,
};

verus! {

// -------------------------------------------------------------------------------- sightings

/// How one line reaches the device.
#[derive(Debug, Clone, Copy, PartialEq, Eq, Structural)]
pub enum Transport {
    Airscan,
    Escl,
    /// A vendor SANE backend: evidence that a device is there, never a way to scan.
    Vendor,
    Other,
}

impl Transport {
    /// Whether acquisition can run against such a sighting.
    pub open spec fn escl(self) -> bool {
        self == Transport::Airscan || self == Transport::Escl
    }

    /// The name of a transport.
    pub open spec fn name(self) -> Seq<char> {
        match self {
            Transport::Airscan => "airscan"@,
            Transport::Escl => "escl"@,
            Transport::Vendor => "vendor"@,
            Transport::Other => "other"@,
        }
    }

    /// Whether this sighting is one acquisition can run against.
    pub fn is_escl(self) -> (r: bool)
        ensures
            r == self.escl(),
    {
        match self {
            Transport::Airscan => true,
            Transport::Escl => true,
            _ => false,
        }
    }

    /// The name of this transport.
    pub fn as_str(self) -> (r: &'static str)
        ensures
            r@ == self.name(),
    {
        match self {
            Transport::Airscan => "airscan",
            Transport::Escl => "escl",
            Transport::Vendor => "vendor",
            Transport::Other => "other",
        }
    }
}

/// One device that `scanimage -L` lists.
#[derive(Debug, Clone, PartialEq, Eq)]
pub struct Sighting {
    pub device_uri: String,
    pub description: String,
    pub transport: Transport,
    pub model: Option<String>,
    pub model_key: Option<String>,
    pub address_hint: Option<String>,
    pub stable_hint: Option<String>,
}

/// What a [`Sighting`] says.
pub struct SightingView {
    pub device_uri: Seq<char>,
    pub description: Seq<char>,
    pub transport: Transport,
    pub model: Option<Seq<char>>,
    pub model_key: Option<Seq<char>>,
    pub address_hint: Option<Seq<char>>,
    pub stable_hint: Option<Seq<char>>,
}

impl View for Sighting {
    type V = SightingView;

    open spec fn view(&self) -> SightingView {
        SightingView {
            device_uri: self.device_uri@,
            description: self.description@,
            transport: self.transport,
            model: optional(self.model),
            model_key: optional(self.model_key),
            address_hint: optional(self.address_hint),
            stable_hint: optional(self.stable_hint),
        }
    }
}

/// What several sightings say.
pub open spec fn sighting_views(v: Seq<Sighting>) -> Seq<SightingView> {
    v.map_values(|s: Sighting| s@)
}

/// The transport that a device name says.
pub open spec fn transport_of(uri: Seq<char>) -> Transport {
    if begins(uri, "brother4:"@) || begins(uri, "brother5:"@) {
        Transport::Vendor
    } else if begins(uri, "airscan:"@) {
        Transport::Airscan
    } else if begins(uri, "escl:"@) || begins(uri, "http://"@) || begins(uri, "https://"@) {
        Transport::Escl
    } else {
        Transport::Other
    }
}

/// The transport that a device name says.
pub fn transport_from_uri(uri: &str) -> (r: Transport)
    ensures
        r == transport_of(uri@),
{
    if text::starts_with(uri, "brother4:") || text::starts_with(uri, "brother5:") {
        Transport::Vendor
    } else if text::starts_with(uri, "airscan:") {
        Transport::Airscan
    } else if text::starts_with(uri, "escl:") || text::starts_with(uri, "http://")
        || text::starts_with(uri, "https://") {
        Transport::Escl
    } else {
        Transport::Other
    }
}

/// Whether a text names Brother.
pub open spec fn marks_brother(s: Seq<char>) -> bool {
    let l = lower(s);
    holds(l, "brother "@) || holds(l, " brother"@) || holds(l, "brother_"@)
}

/// Whether a text names Brother.
pub fn contains_brother_marker(s: &str) -> (r: bool)
    ensures
        r == marks_brother(s@),
{
    let l = text::lower_text(s);
    text::contains(l.as_str(), "brother ") || text::contains(l.as_str(), " brother")
        || text::contains(l.as_str(), "brother_")
}

/// Whether a sighting is of a Brother device.
pub open spec fn of_brother(s: SightingView) -> bool {
    s.transport == Transport::Vendor || marks_brother(s.device_uri) || marks_brother(s.description)
}

/// Whether a sighting is of a Brother device.
pub fn is_brother_sighting(sighting: &Sighting) -> (r: bool)
    ensures
        r == of_brother(sighting@),
{
    sighting.transport == Transport::Vendor || contains_brother_marker(
        sighting.device_uri.as_str(),
    ) || contains_brother_marker(sighting.description.as_str())
}

// ----------------------------------------------------------------------------- device names

/// What stands before the first slash, question mark or hash.
pub open spec fn authority_part(s: Seq<char>) -> Seq<char>
    decreases s.len(),
{
    if s.len() == 0 || s[0] == '/' || s[0] == '?' || s[0] == '#' {
        seq![]
    } else {
        seq![s[0]] + authority_part(s.skip(1))
    }
}

/// The host, with its port, of the first URL in a text.
pub open spec fn host_in(s: Seq<char>) -> Option<Seq<char>> {
    match find(s, "://"@) {
        None => None,
        Some(i) => {
            let host = authority_part(s.skip(i + 3));
            if host.len() > 0 {
                Some(lower(drop_trailing(host, '.')))
            } else {
                None
            }
        },
    }
}

fn authority_len(v: &[char]) -> (r: usize)
    ensures
        r <= v@.len(),
        v@.take(r as int) == authority_part(v@),
{
    let mut i: usize = 0;
    assert(v@.skip(0) =~= v@);
    assert(v@.take(0) + authority_part(v@.skip(0)) =~= authority_part(v@));
    while i < v.len() && v[i] != '/' && v[i] != '?' && v[i] != '#'
        invariant
            i <= v@.len(),
            v@.take(i as int) + authority_part(v@.skip(i as int)) =~= authority_part(v@),
        decreases v@.len() - i,
    {
        assert(v@.skip(i as int).skip(1) =~= v@.skip(i + 1));
        assert(v@.take(i + 1) =~= v@.take(i as int).push(v@[i as int]));
        i = i + 1;
    }
    assert(authority_part(v@.skip(i as int)) =~= seq![]);
    i
}

fn behind<'a>(v: &'a [char], needle: &str) -> (r: Option<&'a [char]>)
    requires
        needle@.len() > 0,
    ensures
        match r {
            Some(rest) => find(v@, needle@) matches Some(i) && rest@ == v@.skip(
                i + needle@.len(),
            ),
            None => find(v@, needle@) is None,
        },
{
    let n = text::chars(needle);
    match text::find_chars(v, n.as_slice()) {
        Some(i) => {
            proof {
                text::lemma_find(v@, needle@);
            }
            let total: usize = v.len();
            let rest = slice_subrange(v, i + n.len(), total);
            assert(rest@ =~= v@.skip(i + needle@.len()));
            Some(rest)
        },
        None => None,
    }
}

/// The host, with its port, of the first URL in a text.
pub fn url_host(address: &str) -> (r: Option<String>)
    ensures
        match r {
            Some(h) => host_in(address@) == Some(h@),
            None => host_in(address@) is None,
        },
{
    proof {
        reveal_strlit("://");
    }
    let v = text::chars(address);
    let rest = match behind(v.as_slice(), "://") {
        Some(rest) => rest,
        None => {
            return None;
        },
    };
    let end: usize = authority_len(rest);
    let host = slice_subrange(rest, 0, end);
    assert(host@ =~= authority_part(rest@));
    if host.len() == 0 {
        None
    } else {
        Some(text::from_chars(text::lowered(text::without_trailing(host, '.')).as_slice()))
    }
}

/// The digits that a text begins with.
pub open spec fn leading_digits(s: Seq<char>) -> Seq<char>
    decreases s.len(),
{
    if s.len() == 0 || !is_digit(s[0]) {
        seq![]
    } else {
        seq![s[0]] + leading_digits(s.skip(1))
    }
}

/// The number that a text begins with, if it begins with one.
pub open spec fn number_prefix(s: Seq<char>) -> Option<Seq<char>> {
    if leading_digits(s).len() > 0 {
        Some(leading_digits(s))
    } else {
        None
    }
}

/// The number that a text begins with, if it begins with one.
pub fn numeric_prefix(v: &[char]) -> (r: Option<String>)
    ensures
        match r {
            Some(n) => number_prefix(v@) == Some(n@),
            None => number_prefix(v@) is None,
        },
{
    let mut i: usize = 0;
    assert(v@.skip(0) =~= v@);
    assert(v@.take(0) + leading_digits(v@.skip(0)) =~= leading_digits(v@));
    while i < v.len() && 0x30 <= v[i] as u32 && v[i] as u32 <= 0x39
        invariant
            i <= v@.len(),
            v@.take(i as int) + leading_digits(v@.skip(i as int)) =~= leading_digits(v@),
        decreases v@.len() - i,
    {
        assert(v@.skip(i as int).skip(1) =~= v@.skip(i + 1));
        assert(v@.take(i + 1) =~= v@.take(i as int).push(v@[i as int]));
        i = i + 1;
    }
    assert(leading_digits(v@.skip(i as int)) =~= seq![]);
    let digits = slice_subrange(v, 0, i);
    assert(digits@ =~= leading_digits(v@));
    if i == 0 {
        None
    } else {
        Some(text::from_chars(digits))
    }
}

/// The USB bus and device that an address names.
pub open spec fn usb_in(s: Seq<char>) -> Option<Seq<char>> {
    match find(s, "usb:"@) {
        None => None,
        Some(i) => {
            let parts = split(s.skip(i + 4), ':');
            if parts.len() < 2 {
                None
            } else {
                match (number_prefix(parts[0]), number_prefix(parts[1])) {
                    (Some(bus), Some(device)) => Some("usb:"@ + bus + ":"@ + device),
                    _ => None,
                }
            }
        },
    }
}

/// The USB bus and device that an address names.
pub fn usb_endpoint(address: &str) -> (r: Option<String>)
    ensures
        match r {
            Some(e) => usb_in(address@) == Some(e@),
            None => usb_in(address@) is None,
        },
{
    proof {
        reveal_strlit("usb:");
    }
    let v = text::chars(address);
    let rest = match behind(v.as_slice(), "usb:") {
        Some(rest) => rest,
        None => {
            return None;
        },
    };
    let parts = text::pieces(rest, ':');
    let ghost all = text::all_views(parts@);
    if parts.len() < 2 {
        return None;
    }
    assert(all[0] == parts@[0]@ && all[1] == parts@[1]@);
    match (numeric_prefix(parts[0].as_slice()), numeric_prefix(parts[1].as_slice())) {
        (Some(bus), Some(device)) => {
            let mut out = "usb:".to_owned();
            out.append(bus.as_str());
            out.append(":");
            out.append(device.as_str());
            Some(out)
        },
        _ => None,
    }
}

/// Whether a character can stand in a dotted address.
pub open spec fn dotted_char(c: char) -> bool {
    is_digit(c) || c == '.'
}

/// The digits and dots that a text begins with.
pub open spec fn leading_dotted(s: Seq<char>) -> Seq<char>
    decreases s.len(),
{
    if s.len() == 0 || !dotted_char(s[0]) {
        seq![]
    } else {
        seq![s[0]] + leading_dotted(s.skip(1))
    }
}

/// Whether a token is four octets with dots between them.
pub open spec fn is_quad(token: Seq<char>) -> bool {
    let octets = split(token, '.');
    octets.len() == 4 && forall|i: int|
        0 <= i < 4 ==> (#[trigger] octets[i]).len() > 0 && parse_unsigned(octets[i], 255) is Some
}

/// The digits and dots that a text begins with are no longer than the text.
pub proof fn lemma_leading_dotted(s: Seq<char>)
    ensures
        leading_dotted(s).len() <= s.len(),
    decreases s.len(),
{
    if s.len() > 0 && dotted_char(s[0]) {
        lemma_leading_dotted(s.skip(1));
    }
}

/// The first IPv4 address in a text, where one stands between other characters.
pub open spec fn quad_in(s: Seq<char>) -> Option<Seq<char>>
    decreases s.len(),
{
    let token = leading_dotted(s);
    proof {
        lemma_leading_dotted(s);
    }
    if is_quad(token) {
        Some(token)
    } else if token.len() < s.len() {
        quad_in(s.skip(token.len() as int + 1))
    } else {
        None
    }
}

fn dotted_len(v: &[char]) -> (r: usize)
    ensures
        r <= v@.len(),
        v@.take(r as int) == leading_dotted(v@),
        r == leading_dotted(v@).len(),
{
    let mut i: usize = 0;
    assert(v@.skip(0) =~= v@);
    assert(v@.take(0) + leading_dotted(v@.skip(0)) =~= leading_dotted(v@));
    while i < v.len() && ((0x30 <= v[i] as u32 && v[i] as u32 <= 0x39) || v[i] == '.')
        invariant
            i <= v@.len(),
            v@.take(i as int) + leading_dotted(v@.skip(i as int)) =~= leading_dotted(v@),
        decreases v@.len() - i,
    {
        assert(v@.skip(i as int).skip(1) =~= v@.skip(i + 1));
        assert(v@.take(i + 1) =~= v@.take(i as int).push(v@[i as int]));
        i = i + 1;
    }
    assert(leading_dotted(v@.skip(i as int)) =~= seq![]);
    i
}

fn quad(token: &[char]) -> (r: bool)
    ensures
        r == is_quad(token@),
{
    let octets = text::pieces(token, '.');
    let ghost all = text::all_views(octets@);
    if octets.len() != 4 {
        return false;
    }
    let mut i: usize = 0;
    while i < 4
        invariant
            i <= 4,
            octets@.len() == 4,
            all == text::all_views(octets@),
            all == split(token@, '.'),
            forall|j: int|
                0 <= j < i ==> (#[trigger] all[j]).len() > 0 && parse_unsigned(all[j], 255) is Some,
        decreases 4 - i,
    {
        assert(all[i as int] == octets@[i as int]@);
        if octets[i].len() == 0 || text::number(octets[i].as_slice(), 255).is_none() {
            return false;
        }
        i = i + 1;
    }
    true
}

/// The first IPv4 address in a text.
pub fn ipv4(address: &str) -> (r: Option<String>)
    ensures
        match r {
            Some(a) => quad_in(address@) == Some(a@),
            None => quad_in(address@) is None,
        },
{
    let v = text::chars(address);
    let mut rest = v.as_slice();
    let mut more = true;
    while more
        invariant
            more ==> quad_in(rest@) == quad_in(address@),
            !more ==> quad_in(address@) is None,
        decreases rest@.len() + if more {
            1int
        } else {
            0int
        },
    {
        let end: usize = dotted_len(rest);
        let token = slice_subrange(rest, 0, end);
        assert(token@ =~= leading_dotted(rest@));
        if quad(token) {
            return Some(text::from_chars(token));
        }
        if end < rest.len() {
            let total: usize = rest.len();
            let tail = slice_subrange(rest, end + 1, total);
            assert(tail@ =~= rest@.skip(end + 1));
            rest = tail;
        } else {
            more = false;
        }
    }
    None
}

/// The value of a key among the pieces of a query. A piece that is no pair ends the search,
/// and a pair without a value is passed over.
pub open spec fn value_among(pieces: Seq<Seq<char>>, key: Seq<char>) -> Option<Seq<char>>
    decreases pieces.len(),
{
    if pieces.len() == 0 {
        None
    } else {
        match split_once(pieces[0], '=') {
            None => None,
            Some((k, v)) => if k == key && v.len() > 0 {
                Some(v)
            } else {
                value_among(pieces.drop_first(), key)
            },
        }
    }
}

/// The value of a key in the query of a URI.
pub open spec fn value_in_query(uri: Seq<char>, key: Seq<char>) -> Option<Seq<char>> {
    match split_once(uri, '?') {
        None => None,
        Some((_, query)) => value_among(split(query, '&'), key),
    }
}

/// The value of a key in the query of a URI.
pub fn query_value(uri: &str, key: &str) -> (r: Option<String>)
    ensures
        match r {
            Some(v) => value_in_query(uri@, key@) == Some(v@),
            None => value_in_query(uri@, key@) is None,
        },
{
    let v = text::chars(uri);
    let k = text::chars(key);
    let query = match text::halves(v.as_slice(), '?') {
        Some((_, query)) => query,
        None => {
            return None;
        },
    };
    let pieces = text::pieces(query, '&');
    let ghost all = text::all_views(pieces@);
    let mut i: usize = 0;
    assert(all.skip(0) =~= all);
    while i < pieces.len()
        invariant
            i <= pieces@.len(),
            k@ == key@,
            all == text::all_views(pieces@),
            value_in_query(uri@, key@) == value_among(all.skip(i as int), key@),
        decreases pieces@.len() - i,
    {
        proof {
            assert(all.skip(i as int)[0] == pieces@[i as int]@);
            assert(all.skip(i as int).drop_first() =~= all.skip(i + 1));
        }
        match text::halves(pieces[i].as_slice(), '=') {
            None => {
                return None;
            },
            Some((current, value)) => {
                if text::same_chars(current, k.as_slice()) && value.len() > 0 {
                    return Some(text::from_chars(value));
                }
            },
        }
        i = i + 1;
    }
    None
}

/// A host name without trailing dots, in small letters.
pub open spec fn plain_host(s: Option<Seq<char>>) -> Option<Seq<char>> {
    match s {
        Some(h) => Some(lower(drop_trailing(h, '.'))),
        None => None,
    }
}

/// The address that a device name says: the host of a URL, the host of a query, a USB
/// endpoint, or an IPv4 address somewhere in it.
pub open spec fn address_in(uri: Seq<char>) -> Option<Seq<char>> {
    either(
        host_in(uri),
        either(
            match value_in_query(uri, "ip"@) {
                Some(ip) => Some(lower(ip)),
                None => None,
            },
            either(
                plain_host(value_in_query(uri, "hostname"@)),
                either(
                    plain_host(value_in_query(uri, "zc"@)),
                    either(usb_in(uri), quad_in(uri)),
                ),
            ),
        ),
    )
}

/// What a device name says that stays the same when the device's address changes: a serial
/// number, or else a name.
pub open spec fn stable_in(uri: Seq<char>) -> Option<Seq<char>> {
    either(
        value_in_query(uri, "serial"@),
        either(
            plain_host(value_in_query(uri, "hostname"@)),
            either(
                plain_host(value_in_query(uri, "zc"@)),
                either(host_in(uri), usb_in(uri)),
            ),
        ),
    )
}

fn query_host(uri: &str, key: &str) -> (r: Option<String>)
    ensures
        match r {
            Some(h) => plain_host(value_in_query(uri@, key@)) == Some(h@),
            None => plain_host(value_in_query(uri@, key@)) is None,
        },
{
    match query_value(uri, key) {
        Some(value) => {
            let v = text::chars(value.as_str());
            Some(
                text::from_chars(
                    text::lowered(text::without_trailing(v.as_slice(), '.')).as_slice(),
                ),
            )
        },
        None => None,
    }
}

/// The address that a device name says.
pub fn physical_address_from_uri(uri: &str) -> (r: Option<String>)
    ensures
        match r {
            Some(a) => address_in(uri@) == Some(a@),
            None => address_in(uri@) is None,
        },
{
    match url_host(uri) {
        Some(host) => {
            return Some(host);
        },
        None => {},
    }
    match query_value(uri, "ip") {
        Some(ip) => {
            return Some(text::lower_text(ip.as_str()));
        },
        None => {},
    }
    match query_host(uri, "hostname") {
        Some(host) => {
            return Some(host);
        },
        None => {},
    }
    match query_host(uri, "zc") {
        Some(host) => {
            return Some(host);
        },
        None => {},
    }
    match usb_endpoint(uri) {
        Some(endpoint) => Some(endpoint),
        None => ipv4(uri),
    }
}

/// What a device name says that stays the same when the device's address changes.
pub fn stable_hint_from_uri(uri: &str) -> (r: Option<String>)
    ensures
        match r {
            Some(a) => stable_in(uri@) == Some(a@),
            None => stable_in(uri@) is None,
        },
{
    match query_value(uri, "serial") {
        Some(serial) => {
            return Some(serial);
        },
        None => {},
    }
    match query_host(uri, "hostname") {
        Some(host) => {
            return Some(host);
        },
        None => {},
    }
    match query_host(uri, "zc") {
        Some(host) => {
            return Some(host);
        },
        None => {},
    }
    match url_host(uri) {
        Some(host) => Some(host),
        None => usb_endpoint(uri),
    }
}

// ----------------------------------------------------------------------------------- models

/// The letters, digits and hyphens that a text begins with.
pub open spec fn leading_model(s: Seq<char>) -> Seq<char>
    decreases s.len(),
{
    if s.len() == 0 || !(is_alnum(s[0]) || s[0] == '-') {
        seq![]
    } else {
        seq![s[0]] + leading_model(s.skip(1))
    }
}

/// The model in a text whose name begins with `prefix`, in capitals.
pub open spec fn model_with(s: Seq<char>, prefix: Seq<char>) -> Option<Seq<char>> {
    match find(upper(s), prefix) {
        None => None,
        Some(i) => {
            let name = leading_model(s.skip(i));
            if name.len() > prefix.len() {
                Some(upper(name))
            } else {
                None
            }
        },
    }
}

/// The model that a text names.
pub open spec fn model_in_text(s: Seq<char>) -> Option<Seq<char>> {
    either(
        model_with(s, "MFC-"@),
        either(
            model_with(s, "DCP-"@),
            either(model_with(s, "ADS-"@), either(model_with(s, "DS-"@), model_with(s, "HL-"@))),
        ),
    )
}

fn model_len(v: &[char]) -> (r: usize)
    ensures
        r <= v@.len(),
        v@.take(r as int) == leading_model(v@),
{
    let mut i: usize = 0;
    assert(v@.skip(0) =~= v@);
    assert(v@.take(0) + leading_model(v@.skip(0)) =~= leading_model(v@));
    while i < v.len() && (text::alnum(v[i]) || v[i] == '-')
        invariant
            i <= v@.len(),
            v@.take(i as int) + leading_model(v@.skip(i as int)) =~= leading_model(v@),
        decreases v@.len() - i,
    {
        assert(v@.skip(i as int).skip(1) =~= v@.skip(i + 1));
        assert(v@.take(i + 1) =~= v@.take(i as int).push(v@[i as int]));
        i = i + 1;
    }
    assert(leading_model(v@.skip(i as int)) =~= seq![]);
    i
}

fn model_starting(v: &[char], prefix: &str) -> (r: Option<String>)
    ensures
        match r {
            Some(m) => model_with(v@, prefix@) == Some(m@),
            None => model_with(v@, prefix@) is None,
        },
{
    let p = text::chars(prefix);
    let capitals = text::uppered(v);
    match text::find_chars(capitals.as_slice(), p.as_slice()) {
        None => None,
        Some(i) => {
            proof {
                text::lemma_find(capitals@, prefix@);
            }
            let total: usize = v.len();
            let tail = slice_subrange(v, i, total);
            assert(tail@ =~= v@.skip(i as int));
            let end: usize = model_len(tail);
            let name = slice_subrange(tail, 0, end);
            assert(name@ =~= leading_model(tail@));
            if end > p.len() {
                Some(text::from_chars(text::uppered(name).as_slice()))
            } else {
                None
            }
        },
    }
}

/// The model that a text names.
pub fn model_from_text(s: &str) -> (r: Option<String>)
    ensures
        match r {
            Some(m) => model_in_text(s@) == Some(m@),
            None => model_in_text(s@) is None,
        },
{
    let v = text::chars(s);
    match model_starting(v.as_slice(), "MFC-") {
        Some(model) => {
            return Some(model);
        },
        None => {},
    }
    match model_starting(v.as_slice(), "DCP-") {
        Some(model) => {
            return Some(model);
        },
        None => {},
    }
    match model_starting(v.as_slice(), "ADS-") {
        Some(model) => {
            return Some(model);
        },
        None => {},
    }
    match model_starting(v.as_slice(), "DS-") {
        Some(model) => Some(model),
        None => model_starting(v.as_slice(), "HL-"),
    }
}

/// A model's name to compare with others.
pub fn normalize_model(model: &str) -> (r: String)
    ensures
        r@ == lower(trim(model@)),
{
    let v = text::chars(model);
    text::from_chars(text::lowered(text::trimmed(v.as_slice())).as_slice())
}

/// What a device with a description is called.
pub open spec fn called(description: Seq<char>) -> Seq<char> {
    match model_in_text(description) {
        Some(model) => model,
        None => trim(description),
    }
}

/// What a device with a description is called.
pub fn display_name(description: &str) -> (r: String)
    ensures
        r@ == called(description@),
{
    match model_from_text(description) {
        Some(model) => model,
        None => text::trim_text(description),
    }
}

// ------------------------------------------------------------------------------------ lines

/// What stands behind the quote that opens a device name: `scanimage` writes an apostrophe
/// or a backtick there.
pub open spec fn behind_opening(line: Seq<char>) -> Option<Seq<char>> {
    either(after_prefix(line, "device '"@), after_prefix(line, "device `"@))
}

/// A description without what surrounds it: white space, apostrophes, an article.
pub open spec fn bare_description(s: Seq<char>) -> Seq<char> {
    let quoted = drop_trailing(drop_leading(trim(s), '\''), '\'');
    match after_prefix(quoted, "a "@) {
        Some(rest) => rest,
        None => quoted,
    }
}

/// What a device name and its description say.
pub open spec fn sighting_from(uri: Seq<char>, description: Seq<char>) -> SightingView {
    let model = either(model_in_text(description), model_in_text(uri));
    SightingView {
        device_uri: uri,
        description,
        transport: transport_of(uri),
        model,
        model_key: match model {
            Some(m) => Some(lower(trim(m))),
            None => None,
        },
        address_hint: address_in(uri),
        stable_hint: stable_in(uri),
    }
}

/// The sighting that a line says, if it says one.
pub open spec fn sighting_in(line: Seq<char>) -> Option<SightingView> {
    match behind_opening(trim(line)) {
        None => None,
        Some(rest) => match find(rest, "' is "@) {
            None => None,
            Some(i) => Some(sighting_from(rest.take(i), bare_description(rest.skip(i + 5)))),
        },
    }
}

/// The sightings that several lines say.
pub open spec fn sightings_in(all: Seq<Seq<char>>) -> Seq<SightingView>
    decreases all.len(),
{
    if all.len() == 0 {
        seq![]
    } else {
        let front = sightings_in(all.drop_last());
        match sighting_in(all.last()) {
            Some(s) => front.push(s),
            None => front,
        }
    }
}

fn describe(v: &[char]) -> (r: String)
    ensures
        r@ == bare_description(v@),
{
    let quoted = text::without_trailing(text::without_leading(text::trimmed(v), '\''), '\'');
    let s = text::from_chars(quoted);
    match text::strip_prefix(s.as_str(), "a ") {
        Some(rest) => rest.to_owned(),
        None => s,
    }
}

/// The sighting that a line says, if it says one.
pub fn parse_scanimage_line(line: &str) -> (r: Option<Sighting>)
    ensures
        match r {
            Some(s) => sighting_in(line@) == Some(s@),
            None => sighting_in(line@) is None,
        },
{
    proof {
        reveal_strlit("' is ");
    }
    let trimmed = text::trim_text(line);
    let rest = match text::strip_prefix(trimmed.as_str(), "device '") {
        Some(rest) => text::chars(rest),
        None => match text::strip_prefix(trimmed.as_str(), "device `") {
            Some(rest) => text::chars(rest),
            None => {
                return None;
            },
        },
    };
    let between = text::chars("' is ");
    let at: usize = match text::find_chars(rest.as_slice(), between.as_slice()) {
        Some(at) => at,
        None => {
            return None;
        },
    };
    proof {
        text::lemma_find(rest@, between@);
    }
    let total: usize = rest.len();
    let name = slice_subrange(rest.as_slice(), 0, at);
    let tail = slice_subrange(rest.as_slice(), at + 5, total);
    proof {
        assert(name@ =~= rest@.take(at as int));
        assert(tail@ =~= rest@.skip(at + 5));
    }
    let device_uri = text::from_chars(name);
    let description = describe(tail);
    let model = match model_from_text(description.as_str()) {
        Some(model) => Some(model),
        None => model_from_text(device_uri.as_str()),
    };
    let model_key = match &model {
        Some(model) => Some(normalize_model(model.as_str())),
        None => None,
    };
    Some(
        Sighting {
            transport: transport_from_uri(device_uri.as_str()),
            address_hint: physical_address_from_uri(device_uri.as_str()),
            stable_hint: stable_hint_from_uri(device_uri.as_str()),
            device_uri,
            description,
            model,
            model_key,
        },
    )
}

/// The sightings that the output of `scanimage -L` lists.
pub fn parse_scanimage_output(output: &str) -> (r: Vec<Sighting>)
    ensures
        sighting_views(r@) == sightings_in(lines(output@)),
{
    let rows = text::all_lines(output);
    let ghost all = text::all_views(rows@);
    let mut out: Vec<Sighting> = Vec::new();
    let mut i: usize = 0;
    assert(all.take(0) =~= Seq::<Seq<char>>::empty());
    assert(sighting_views(out@) =~= seq![]);
    while i < rows.len()
        invariant
            i <= rows@.len(),
            all == text::all_views(rows@),
            sighting_views(out@) == sightings_in(all.take(i as int)),
        decreases rows@.len() - i,
    {
        let ghost before = out@;
        proof {
            assert(all.take(i + 1).last() == rows@[i as int]@);
            assert(all.take(i + 1).drop_last() =~= all.take(i as int));
        }
        match parse_scanimage_line(text::from_chars(rows[i].as_slice()).as_str()) {
            Some(sighting) => {
                let ghost said = sighting@;
                out.push(sighting);
                assert(sighting_views(out@) =~= sighting_views(before).push(said));
            },
            None => {},
        }
        i = i + 1;
    }
    assert(all.take(i as int) =~= all);
    out
}

// ------------------------------------------------------------------------------------ laws

/// How a device name says that the device is reached: by what it begins with, and by nothing
/// else.
pub proof fn law_the_transport_is_how_a_name_begins(uri: Seq<char>, rest: Seq<char>)
    ensures
        transport_of("brother4:"@ + rest) == Transport::Vendor,
        transport_of("brother5:"@ + rest) == Transport::Vendor,
        transport_of("airscan:"@ + rest) == Transport::Airscan,
        transport_of("escl:"@ + rest) == Transport::Escl,
        transport_of("http://"@ + rest) == Transport::Escl,
        transport_of("https://"@ + rest) == Transport::Escl,
        transport_of(uri) != Transport::Other <==> begins(uri, "brother4:"@) || begins(
            uri,
            "brother5:"@,
        ) || begins(uri, "airscan:"@) || begins(uri, "escl:"@) || begins(uri, "http://"@) || begins(
            uri,
            "https://"@,
        ),
        transport_of(uri).escl() <==> transport_of(uri) == Transport::Airscan || transport_of(uri)
            == Transport::Escl,
{
    reveal_strlit("brother4:");
    reveal_strlit("brother5:");
    reveal_strlit("airscan:");
    reveal_strlit("escl:");
    reveal_strlit("http://");
    reveal_strlit("https://");
    lemma_begins_sum("brother4:"@, rest);
    lemma_begins_sum("brother5:"@, rest);
    lemma_begins_sum("airscan:"@, rest);
    lemma_begins_sum("escl:"@, rest);
    lemma_begins_sum("http://"@, rest);
    lemma_begins_sum("https://"@, rest);
    assert("brother4:"@[0] == 'b' && "brother5:"@[0] == 'b' && "airscan:"@[0] == 'a' && "escl:"@[0]
        == 'e' && "http://"@[0] == 'h' && "https://"@[0] == 'h');
    lemma_begins_otherwise("airscan:"@, rest, "brother4:"@);
    lemma_begins_otherwise("airscan:"@, rest, "brother5:"@);
    lemma_begins_otherwise("escl:"@, rest, "brother4:"@);
    lemma_begins_otherwise("escl:"@, rest, "brother5:"@);
    lemma_begins_otherwise("escl:"@, rest, "airscan:"@);
    lemma_begins_otherwise("http://"@, rest, "brother4:"@);
    lemma_begins_otherwise("http://"@, rest, "brother5:"@);
    lemma_begins_otherwise("http://"@, rest, "airscan:"@);
    lemma_begins_otherwise("https://"@, rest, "brother4:"@);
    lemma_begins_otherwise("https://"@, rest, "brother5:"@);
    lemma_begins_otherwise("https://"@, rest, "airscan:"@);
}

proof fn lemma_begins_sum(a: Seq<char>, b: Seq<char>)
    ensures
        begins(a + b, a),
{
    assert((a + b).take(a.len() as int) =~= a);
}

proof fn lemma_begins_otherwise(a: Seq<char>, b: Seq<char>, other: Seq<char>)
    requires
        a.len() > 0 && other.len() > 0 && a[0] != other[0],
    ensures
        !begins(a + b, other),
{
    if begins(a + b, other) {
        assert((a + b).take(other.len() as int)[0] == (a + b)[0]);
    }
}

proof fn lemma_named(front: Seq<char>, word: Seq<char>, behind: Seq<char>)
    ensures
        holds(front + word + behind, word),
{
    let s = front + word + behind;
    let at: int = front.len() as int;
    text::lemma_find(s, word);
    assert(s.subrange(at, at + word.len()) =~= word);
    assert(text::occurs_at(s, word, at));
}

#[verifier::rlimit(40)]
proof fn lemma_names_itself(l: Seq<char>)
    requires
        holds(l, "brother "@) || holds(l, " brother"@) || holds(l, "brother_"@),
    ensures
        exists|i: int|
            0 <= i && i + 7 <= l.len() && #[trigger] l.subrange(i, i + 7) == "brother"@,
{
    reveal_strlit("brother ");
    reveal_strlit(" brother");
    reveal_strlit("brother_");
    reveal_strlit("brother");
    assert("brother "@.take(7) =~= "brother"@);
    assert("brother_"@.take(7) =~= "brother"@);
    assert(" brother"@.skip(1) =~= "brother"@);
    if holds(l, "brother "@) {
        text::lemma_find(l, "brother "@);
        let i: int = find(l, "brother "@)->Some_0 as int;
        assert(l.subrange(i, i + 7) =~= l.subrange(i, i + 8).take(7));
    } else if holds(l, "brother_"@) {
        text::lemma_find(l, "brother_"@);
        let i: int = find(l, "brother_"@)->Some_0 as int;
        assert(l.subrange(i, i + 7) =~= l.subrange(i, i + 8).take(7));
    } else {
        text::lemma_find(l, " brother"@);
        let i: int = find(l, " brother"@)->Some_0 as int;
        let k: int = i + 1;
        assert(l.subrange(k, k + 7) =~= l.subrange(i, i + 8).skip(1));
    }
}

/// Whether a text names Brother: as a word of its own in front of another, behind another, or
/// with an underscore behind it; capitals or not, and wherever it stands. A sighting is of a
/// Brother device where its name or its description does, or where it comes from a vendor
/// backend.
pub proof fn law_brother_is_named_anywhere(
    s: SightingView,
    text: Seq<char>,
    front: Seq<char>,
    behind: Seq<char>,
)
    ensures
        lower(text) == front + "brother "@ + behind || lower(text) == front + " brother"@ + behind
            || lower(text) == front + "brother_"@ + behind ==> marks_brother(text),
        marks_brother(text) ==> exists|i: int|
            0 <= i && i + 7 <= text.len() && #[trigger] lower(text).subrange(i, i + 7)
                == "brother"@,
        of_brother(s) <==> s.transport == Transport::Vendor || marks_brother(s.device_uri)
            || marks_brother(s.description),
{
    let l = lower(text);
    lemma_named(front, "brother "@, behind);
    lemma_named(front, " brother"@, behind);
    lemma_named(front, "brother_"@, behind);
    if marks_brother(text) {
        lemma_names_itself(l);
        let i = choose|i: int|
            0 <= i && i + 7 <= l.len() && #[trigger] l.subrange(i, i + 7) == "brother"@;
        assert(0 <= i && i + 7 <= text.len() && lower(text).subrange(i, i + 7) == "brother"@);
    }
}

proof fn lemma_authority(host: Seq<char>, rest: Seq<char>)
    requires
        forall|i: int|
            0 <= i < host.len() ==> (#[trigger] host[i]) != '/' && host[i] != '?' && host[i] != '#',
        rest.len() > 0 ==> rest[0] == '/' || rest[0] == '?' || rest[0] == '#',
    ensures
        authority_part(host + rest) == host,
    decreases host.len(),
{
    let s = host + rest;
    if host.len() == 0 {
        assert(s =~= rest);
        assert(authority_part(s) =~= host);
    } else {
        let less = host.skip(1);
        assert(s[0] == host[0]);
        assert forall|i: int| 0 <= i < less.len() implies (#[trigger] less[i]) != '/' && less[i]
            != '?' && less[i] != '#' by {
            assert(less[i] == host[i + 1]);
        }
        assert(s.skip(1) =~= less + rest);
        lemma_authority(less, rest);
        assert(seq![host[0]] + less =~= host);
    }
}

/// The host of the first URL in a text, up to the path, the query or the fragment behind it,
/// with its port, without the dots behind it and in small letters; none where the text has no
/// URL, or one without a host.
#[verifier::rlimit(40)]
pub proof fn law_a_url_names_its_host(
    front: Seq<char>,
    host: Seq<char>,
    rest: Seq<char>,
    other: Seq<char>,
)
    requires
        front.len() == 0 || front.last() != ':',
        !holds(front, "://"@),
        forall|i: int|
            0 <= i < host.len() ==> (#[trigger] host[i]) != '/' && host[i] != '?' && host[i] != '#',
        rest.len() > 0 ==> rest[0] == '/' || rest[0] == '?' || rest[0] == '#',
        !holds(other, "://"@),
    ensures
        host.len() > 0 ==> host_in(front + "://"@ + (host + rest)) == Some(
            lower(drop_trailing(host, '.')),
        ),
        host.len() == 0 ==> host_in(front + "://"@ + (host + rest)) is None,
        host_in(other) is None,
{
    reveal_strlit("://");
    let s = front + "://"@ + (host + rest);
    let n = front.len() as int;
    assert(s.subrange(n, n + 3) =~= "://"@);
    text::lemma_find(front, "://"@);
    assert forall|j: int| 0 <= j < n implies !text::occurs_at(s, "://"@, j) by {
        if text::occurs_at(s, "://"@, j) {
            let w = s.subrange(j, j + 3);
            assert(w[0] == s[j] && w[1] == s[j + 1] && w[2] == s[j + 2]);
            assert("://"@[0] == ':' && "://"@[1] == '/' && "://"@[2] == '/');
            if j + 3 <= n {
                assert(front.subrange(j, j + 3) =~= w);
                assert(!text::occurs_at(front, "://"@, j));
            } else if j + 2 == n {
                assert(s[j + 1] == front[j + 1] && s[n] == ':');
            } else {
                assert(s[j] == front[j] && front[j] == front.last());
            }
        }
    }
    text::lemma_find_is(s, "://"@, n);
    assert(s.skip(n + 3) =~= host + rest);
    lemma_authority(host, rest);
}

proof fn lemma_leading_digits(d: Seq<char>, rest: Seq<char>)
    requires
        text::all_digits(d),
        rest.len() > 0 ==> !is_digit(rest[0]),
    ensures
        leading_digits(d + rest) == d,
    decreases d.len(),
{
    let s = d + rest;
    if d.len() == 0 {
        assert(s =~= rest);
        assert(leading_digits(s) =~= d);
    } else {
        let less = d.skip(1);
        assert(is_digit(d[0]) && s[0] == d[0]);
        assert forall|i: int| 0 <= i < less.len() implies is_digit(#[trigger] less[i]) by {
            assert(less[i] == d[i + 1]);
        }
        assert(s.skip(1) =~= less + rest);
        lemma_leading_digits(less, rest);
        assert(seq![d[0]] + less =~= d);
    }
}

/// A USB endpoint is the bus and the device behind the first `usb:` of a text, each as many
/// digits as stand there.
#[verifier::rlimit(40)]
pub proof fn law_a_usb_endpoint_is_bus_and_device(
    front: Seq<char>,
    bus: Seq<char>,
    x: Seq<char>,
    device: Seq<char>,
    y: Seq<char>,
    rest: Seq<char>,
)
    requires
        forall|i: int| 0 <= i < front.len() ==> #[trigger] front[i] != 'u',
        text::all_digits(bus) && bus.len() > 0 && text::all_digits(device) && device.len() > 0,
        x.len() > 0 ==> !is_digit(x[0]),
        y.len() > 0 ==> !is_digit(y[0]),
        !x.contains(':') && !y.contains(':'),
        rest.len() > 0 ==> rest[0] == ':',
    ensures
        usb_in(front + "usb:"@ + (bus + x + (seq![':'] + (device + y + rest)))) == Some(
            "usb:"@ + bus + ":"@ + device,
        ),
{
    reveal_strlit("usb:");
    let one = bus + x;
    let two = device + y;
    let tail = one + (seq![':'] + (two + rest));
    let s = front + "usb:"@ + tail;
    let n = front.len() as int;
    assert(s.subrange(n, n + 4) =~= "usb:"@);
    assert forall|j: int| 0 <= j < n implies !text::occurs_at(s, "usb:"@, j) by {
        if text::occurs_at(s, "usb:"@, j) {
            assert(s.subrange(j, j + 4)[0] == s[j] && s[j] == front[j]);
            assert("usb:"@[0] == 'u');
        }
    }
    text::lemma_find_is(s, "usb:"@, n);
    assert(s.skip(n + 4) =~= tail);
    lemma_no_colon(bus, x);
    lemma_no_colon(device, y);
    assert(tail =~= one + seq![':'] + (two + rest));
    text::lemma_split_first(one, ':', two + rest);
    lemma_leading_digits(bus, x);
    lemma_leading_digits(device, y);
    if rest.len() == 0 {
        assert(two + rest =~= two);
        text::lemma_split_none(two, ':');
    } else {
        assert(two + rest =~= two + seq![':'] + rest.skip(1));
        text::lemma_split_first(two, ':', rest.skip(1));
    }
    let parts = split(tail, ':');
    assert(parts[0] == one && parts[1] == two);
}

proof fn lemma_no_colon(d: Seq<char>, x: Seq<char>)
    requires
        text::all_digits(d),
        !x.contains(':'),
    ensures
        !(d + x).contains(':'),
{
    if (d + x).contains(':') {
        let j = choose|j: int| 0 <= j < (d + x).len() && (d + x)[j] == ':';
        if j < d.len() {
            assert(is_digit(d[j]));
        } else {
            assert(x[j - d.len()] == ':');
        }
    }
}

proof fn lemma_leading_dotted_is(run: Seq<char>, rest: Seq<char>)
    requires
        forall|i: int| 0 <= i < run.len() ==> dotted_char(#[trigger] run[i]),
        rest.len() > 0 ==> !dotted_char(rest[0]),
    ensures
        leading_dotted(run + rest) == run,
    decreases run.len(),
{
    let s = run + rest;
    if run.len() == 0 {
        assert(s =~= rest);
        assert(leading_dotted(s) =~= run);
    } else {
        let less = run.skip(1);
        assert(dotted_char(run[0]) && s[0] == run[0]);
        assert forall|i: int| 0 <= i < less.len() implies dotted_char(#[trigger] less[i]) by {
            assert(less[i] == run[i + 1]);
        }
        assert(s.skip(1) =~= less + rest);
        lemma_leading_dotted_is(less, rest);
        assert(seq![run[0]] + less =~= run);
    }
}

/// Four numbers of at most 255 with dots between them are found as an address wherever they
/// stand in a text, behind other characters and in front of others.
#[verifier::rlimit(40)]
pub proof fn law_an_address_is_found_in_a_text(
    front: Seq<char>,
    a: nat,
    b: nat,
    c: nat,
    d: nat,
    rest: Seq<char>,
)
    requires
        a <= 255 && b <= 255 && c <= 255 && d <= 255,
        forall|i: int| 0 <= i < front.len() ==> !is_digit(#[trigger] front[i]) && front[i] != '.',
        rest.len() > 0 ==> !is_digit(rest[0]) && rest[0] != '.',
    ensures
        ({
            let quad = decimal(a) + seq!['.'] + (decimal(b) + seq!['.'] + (decimal(c) + seq!['.']
                + decimal(d)));
            quad_in(front + (quad + rest)) == Some(quad)
        }),
    decreases front.len(),
{
    let quad = decimal(a) + seq!['.'] + (decimal(b) + seq!['.'] + (decimal(c) + seq!['.']
        + decimal(d)));
    let s = front + (quad + rest);
    lemma_quad(a, b, c, d);
    if front.len() == 0 {
        assert(s =~= quad + rest);
        lemma_leading_dotted_is(quad, rest);
    } else {
        let less = front.skip(1);
        assert(s[0] == front[0] && !dotted_char(s[0]));
        assert(leading_dotted(s) =~= seq![]);
        assert(!is_quad(seq![])) by {
            text::lemma_split_none(Seq::<char>::empty(), '.');
        }
        assert forall|i: int| 0 <= i < less.len() implies !is_digit(#[trigger] less[i]) && less[i]
            != '.' by {
            assert(less[i] == front[i + 1]);
        }
        assert(s.skip(1) =~= less + (quad + rest));
        law_an_address_is_found_in_a_text(less, a, b, c, d, rest);
    }
}

proof fn lemma_quad(a: nat, b: nat, c: nat, d: nat)
    requires
        a <= 255 && b <= 255 && c <= 255 && d <= 255,
    ensures
        ({
            let quad = decimal(a) + seq!['.'] + (decimal(b) + seq!['.'] + (decimal(c) + seq!['.']
                + decimal(d)));
            is_quad(quad) && forall|i: int|
                0 <= i < quad.len() ==> dotted_char(#[trigger] quad[i])
        }),
{
    let x = decimal(a);
    let y = decimal(b);
    let z = decimal(c);
    let w = decimal(d);
    let cd = z + seq!['.'] + w;
    let bcd = y + seq!['.'] + cd;
    let quad = x + seq!['.'] + bcd;
    lemma_octet(a);
    lemma_octet(b);
    lemma_octet(c);
    lemma_octet(d);
    text::lemma_split_first(x, '.', bcd);
    text::lemma_split_first(y, '.', cd);
    text::lemma_split_first(z, '.', w);
    text::lemma_split_none(w, '.');
    assert(split(quad, '.') =~= seq![x, y, z, w]);
    let octets = split(quad, '.');
    assert forall|i: int| 0 <= i < 4 implies (#[trigger] octets[i]).len() > 0 && parse_unsigned(
        octets[i],
        255,
    ) is Some by {
        assert(i == 0 || i == 1 || i == 2 || i == 3);
    }
    assert forall|i: int| 0 <= i < quad.len() implies dotted_char(#[trigger] quad[i]) by {
        let n1 = x.len() as int;
        let n2 = n1 + 1 + y.len();
        let n3 = n2 + 1 + z.len();
        if i < n1 {
            assert(quad[i] == x[i]);
        } else if i == n1 {
        } else if i < n2 {
            assert(quad[i] == y[i - n1 - 1]);
        } else if i == n2 {
            assert(quad[i] == '.');
        } else if i < n3 {
            assert(quad[i] == z[i - n2 - 1]);
        } else if i == n3 {
            assert(quad[i] == '.');
        } else {
            assert(quad[i] == w[i - n3 - 1]);
        }
    }
}

proof fn lemma_octet(n: nat)
    requires
        n <= 255,
    ensures
        decimal(n).len() > 0,
        text::all_digits(decimal(n)),
        !decimal(n).contains('.'),
        parse_unsigned(decimal(n), 255) is Some,
{
    text::lemma_decimal_reads_back(n);
    text::lemma_decimal_parses(n, 255);
    if decimal(n).contains('.') {
        let j = choose|j: int| 0 <= j < decimal(n).len() && decimal(n)[j] == '.';
        assert(is_digit(decimal(n)[j]));
    }
}

/// The value of a key in a query is that of the first pair with the key that has one, wherever
/// the pair stands; where no pair has the key and a value there is none, and without a query
/// neither.
pub proof fn law_a_query_says_its_first_value(
    base: Seq<char>,
    pairs: Seq<(Seq<char>, Seq<char>)>,
    key: Seq<char>,
    i: int,
)
    requires
        !base.contains('?'),
        pairs.len() > 0 && are_pairs(pairs),
    ensures
        0 <= i < pairs.len() && pairs[i].0 == key && pairs[i].1.len() > 0 && (forall|j: int|
            0 <= j < i ==> (#[trigger] pairs[j]).0 != key || pairs[j].1.len() == 0)
            ==> value_in_query(base + seq!['?'] + query_of(pairs), key) == Some(pairs[i].1),
        (forall|j: int|
            0 <= j < pairs.len() ==> (#[trigger] pairs[j]).0 != key || pairs[j].1.len() == 0)
            ==> value_in_query(base + seq!['?'] + query_of(pairs), key) is None,
        value_in_query(base, key) is None,
{
    let query = query_of(pairs);
    let uri = base + seq!['?'] + query;
    text::lemma_split_first(base, '?', query);
    text::lemma_index_of(base, '?');
    assert(uri.skip(base.len() as int + 1) =~= query);
    lemma_query(pairs, key, i);
}

proof fn lemma_query(pairs: Seq<(Seq<char>, Seq<char>)>, key: Seq<char>, i: int)
    requires
        pairs.len() > 0 && are_pairs(pairs),
    ensures
        0 <= i < pairs.len() && pairs[i].0 == key && pairs[i].1.len() > 0 && (forall|j: int|
            0 <= j < i ==> (#[trigger] pairs[j]).0 != key || pairs[j].1.len() == 0) ==> value_among(
            split(query_of(pairs), '&'),
            key,
        ) == Some(pairs[i].1),
        (forall|j: int|
            0 <= j < pairs.len() ==> (#[trigger] pairs[j]).0 != key || pairs[j].1.len() == 0)
            ==> value_among(split(query_of(pairs), '&'), key) is None,
    decreases pairs.len(),
{
    let (k, v) = pairs[0];
    let pair = k + seq!['='] + v;
    let pieces = split(query_of(pairs), '&');
    assert(!pair.contains('&')) by {
        if pair.contains('&') {
            let j = choose|j: int| 0 <= j < pair.len() && pair[j] == '&';
            if j < k.len() {
                assert(k[j] == '&');
            } else if j > k.len() {
                assert(v[j - k.len() - 1] == '&');
            }
        }
    }
    text::lemma_split_first(k, '=', v);
    assert(pair.take(k.len() as int) =~= k);
    assert(pair.skip(k.len() as int + 1) =~= v);
    if pairs.len() == 1 {
        text::lemma_split_none(pair, '&');
        assert(pieces.drop_first() =~= seq![]);
        assert(value_among(pieces.drop_first(), key) is None);
    } else {
        let more = pairs.drop_first();
        assert forall|j: int| 0 <= j < more.len() implies !(#[trigger] more[j]).0.contains('=')
            && !more[j].0.contains('&') && !more[j].1.contains('&') by {
            assert(more[j] == pairs[j + 1]);
        }
        text::lemma_split_first(pair, '&', query_of(more));
        assert(pieces == seq![pair] + split(query_of(more), '&'));
        assert(pieces.drop_first() =~= split(query_of(more), '&'));
        lemma_query(more, key, i - 1);
        if 0 < i < pairs.len() {
            assert(more[i - 1] == pairs[i]);
            assert forall|j: int|
                (0 <= j < i - 1) && (forall|m: int|
                    0 <= m < i ==> (#[trigger] pairs[m]).0 != key || pairs[m].1.len()
                        == 0) implies (#[trigger] more[j]).0 != key || more[j].1.len() == 0 by {
                assert(more[j] == pairs[j + 1]);
            }
        }
        assert forall|j: int|
            (0 <= j < more.len()) && (forall|m: int|
                0 <= m < pairs.len() ==> (#[trigger] pairs[m]).0 != key || pairs[m].1.len()
                    == 0) implies (#[trigger] more[j]).0 != key || more[j].1.len() == 0 by {
            assert(more[j] == pairs[j + 1]);
        }
    }
}

/// Where a device name says that the device is, and what of it stays the same. The first of
/// these that there is counts: for where it is, the host of a URL, the `ip`, the `hostname` and
/// the `zc` of a query, a USB endpoint, an address anywhere; for what stays, the `serial`, the
/// `hostname` and the `zc` of a query, the host of a URL, a USB endpoint. An address found
/// somewhere is no name that stays.
pub proof fn law_the_surest_hint_counts(uri: Seq<char>)
    ensures
        ({
            let host = host_in(uri);
            let ip = value_in_query(uri, "ip"@);
            let name = value_in_query(uri, "hostname"@);
            let zc = value_in_query(uri, "zc"@);
            let serial = value_in_query(uri, "serial"@);
            let usb = usb_in(uri);
            let quad = quad_in(uri);
            let bare = |s: Seq<char>| lower(drop_trailing(s, '.'));
            &&& host is Some ==> address_in(uri) == host
            &&& host is None && ip is Some ==> address_in(uri) == Some(lower(ip->Some_0))
            &&& host is None && ip is None && name is Some ==> address_in(uri) == Some(
                bare(name->Some_0),
            )
            &&& host is None && ip is None && name is None && zc is Some ==> address_in(uri)
                == Some(bare(zc->Some_0))
            &&& host is None && ip is None && name is None && zc is None && usb is Some
                ==> address_in(uri) == usb
            &&& host is None && ip is None && name is None && zc is None && usb is None
                ==> address_in(uri) == quad
            &&& serial is Some ==> stable_in(uri) == serial
            &&& serial is None && name is Some ==> stable_in(uri) == Some(bare(name->Some_0))
            &&& serial is None && name is None && zc is Some ==> stable_in(uri) == Some(
                bare(zc->Some_0),
            )
            &&& serial is None && name is None && zc is None && host is Some ==> stable_in(uri)
                == host
            &&& serial is None && name is None && zc is None && host is None ==> stable_in(uri)
                == usb
        }),
{
}

proof fn lemma_leading_model(run: Seq<char>, rest: Seq<char>)
    requires
        forall|i: int| 0 <= i < run.len() ==> is_alnum(#[trigger] run[i]) || run[i] == '-',
        rest.len() > 0 ==> !is_alnum(rest[0]) && rest[0] != '-',
    ensures
        leading_model(run + rest) == run,
    decreases run.len(),
{
    let s = run + rest;
    if run.len() == 0 {
        assert(s =~= rest);
        assert(leading_model(s) =~= run);
    } else {
        let less = run.skip(1);
        assert(is_alnum(run[0]) || run[0] == '-');
        assert(s[0] == run[0]);
        assert forall|i: int| 0 <= i < less.len() implies is_alnum(#[trigger] less[i]) || less[i]
            == '-' by {
            assert(less[i] == run[i + 1]);
        }
        assert(s.skip(1) =~= less + rest);
        lemma_leading_model(less, rest);
        assert(seq![run[0]] + less =~= run);
    }
}

/// A model is found behind whatever stands in front of it: the letters, digits and hyphens
/// from the name of its series on, in capitals however they are written. The name of a series
/// alone is no model.
pub proof fn law_a_model_runs_on_from_its_series(
    front: Seq<char>,
    name: Seq<char>,
    rest: Seq<char>,
    series: Seq<char>,
)
    requires
        series.len() > 0 && begins(upper(name), series),
        forall|i: int| 0 <= i < name.len() ==> is_alnum(#[trigger] name[i]) || name[i] == '-',
        rest.len() > 0 ==> !is_alnum(rest[0]) && rest[0] != '-',
        forall|j: int|
            0 <= j < front.len() ==> !text::occurs_at(upper(front + (name + rest)), series, j),
    ensures
        name.len() > series.len() ==> model_with(front + (name + rest), series) == Some(
            upper(name),
        ),
        name.len() == series.len() ==> model_with(front + (name + rest), series) is None,
{
    let s = front + (name + rest);
    let n = front.len() as int;
    let u = upper(s);
    assert(u.subrange(n, n + series.len()) =~= upper(name).take(series.len() as int));
    text::lemma_find_is(u, series, n);
    assert(s.skip(n) =~= name + rest);
    lemma_leading_model(name, rest);
}

/// Which series are known, and in which order they are looked for.
pub proof fn law_five_series_are_known(s: Seq<char>)
    ensures
        model_in_text(s) is Some <==> model_with(s, "MFC-"@) is Some || model_with(s, "DCP-"@)
            is Some || model_with(s, "ADS-"@) is Some || model_with(s, "DS-"@) is Some
            || model_with(s, "HL-"@) is Some,
        model_with(s, "MFC-"@) is Some ==> model_in_text(s) == model_with(s, "MFC-"@),
        model_with(s, "MFC-"@) is None && model_with(s, "DCP-"@) is Some ==> model_in_text(s)
            == model_with(s, "DCP-"@),
        model_with(s, "MFC-"@) is None && model_with(s, "DCP-"@) is None && model_with(s, "ADS-"@)
            is Some ==> model_in_text(s) == model_with(s, "ADS-"@),
        model_with(s, "MFC-"@) is None && model_with(s, "DCP-"@) is None && model_with(s, "ADS-"@)
            is None && model_with(s, "DS-"@) is Some ==> model_in_text(s) == model_with(s, "DS-"@),
        model_with(s, "MFC-"@) is None && model_with(s, "DCP-"@) is None && model_with(s, "ADS-"@)
            is None && model_with(s, "DS-"@) is None ==> model_in_text(s) == model_with(s, "HL-"@),
        model_in_text(s) matches Some(m) ==> called(s) == m,
        model_in_text(s) is None ==> called(s) == trim(s),
{
}

/// A line of `scanimage -L` says the name that it quotes and the description behind it,
/// without the article in front of that or the apostrophes around it; what else is known of
/// the sighting is read off those two, the model off the description first. A line that
/// begins otherwise says none, and every other line of an output is read on its own.
#[verifier::rlimit(40)]
pub proof fn law_a_line_says_its_device(
    opening: Seq<char>,
    uri: Seq<char>,
    description: Seq<char>,
    line: Seq<char>,
    all: Seq<Seq<char>>,
)
    requires
        opening == "device '"@ || opening == "device `"@,
        !holds(uri + "' is"@, "' is "@),
        description.len() > 0 && !text::is_white(description[0]) && !text::is_white(
            description.last(),
        ),
        description[0] != '\'' && description.last() != '\'',
        !begins(description, "a "@),
        trim(line) == opening + uri + "' is "@ + description || trim(line) == opening + uri
            + "' is "@ + ("a "@ + description) || trim(line) == opening + uri + "' is "@ + (seq![
            '\'',
        ] + description + seq!['\'']),
    ensures
        sighting_in(line) matches Some(s) && s.device_uri == uri && s.description == description
            && s.transport == transport_of(uri) && s.address_hint == address_in(uri)
            && s.stable_hint == stable_in(uri) && (model_in_text(description) is Some ==> s.model
            == model_in_text(description)) && (model_in_text(description) is None ==> s.model
            == model_in_text(uri)) && (s.model matches Some(m) ==> s.model_key == Some(
            lower(trim(m)),
        )) && (s.model is None ==> s.model_key is None),
        sightings_in(all.push(line)) == sightings_in(all).push(sighting_in(line)->Some_0),
{
    assert(all.push(line).drop_last() =~= all);
    let t = trim(line);
    let tail = if t == opening + uri + "' is "@ + description {
        description
    } else if t == opening + uri + "' is "@ + ("a "@ + description) {
        "a "@ + description
    } else {
        seq!['\''] + description + seq!['\'']
    };
    lemma_quoted_name(opening, uri, tail);
    lemma_name_ends(uri, tail);
    lemma_bare(description, tail);
    assert(sighting_in(line) == Some(sighting_from(uri, description)));
}

proof fn lemma_quoted_name(opening: Seq<char>, uri: Seq<char>, tail: Seq<char>)
    requires
        opening == "device '"@ || opening == "device `"@,
    ensures
        behind_opening(opening + uri + "' is "@ + tail) == Some(uri + "' is "@ + tail),
{
    reveal_strlit("device '");
    reveal_strlit("device `");
    let rest = uri + "' is "@ + tail;
    let t = opening + uri + "' is "@ + tail;
    assert(t =~= opening + rest);
    assert(t.take(8) =~= opening);
    assert(t.skip(8) =~= rest);
    assert("device '"@[7] == '\'' && "device `"@[7] == '`');
}

proof fn lemma_name_ends(uri: Seq<char>, tail: Seq<char>)
    requires
        !holds(uri + "' is"@, "' is "@),
    ensures
        ({
            let rest = uri + "' is "@ + tail;
            &&& find(rest, "' is "@) == Some(uri.len() as int)
            &&& rest.take(uri.len() as int) == uri
            &&& rest.skip(uri.len() as int + 5) == tail
        }),
{
    reveal_strlit("' is ");
    reveal_strlit("' is");
    let rest = uri + "' is "@ + tail;
    let n = uri.len() as int;
    assert(rest.subrange(n, n + 5) =~= "' is "@);
    let part = uri + "' is"@;
    text::lemma_find(part, "' is "@);
    assert forall|j: int| 0 <= j < n implies !text::occurs_at(rest, "' is "@, j) by {
        if text::occurs_at(rest, "' is "@, j) {
            if j + 5 <= part.len() {
                assert(part.subrange(j, j + 5) =~= rest.subrange(j, j + 5));
                assert(!text::occurs_at(part, "' is "@, j));
            }
        }
    }
    text::lemma_find_is(rest, "' is "@, n);
    assert(rest.take(n) =~= uri);
    assert(rest.skip(n + 5) =~= tail);
}

proof fn lemma_bare(description: Seq<char>, tail: Seq<char>)
    requires
        description.len() > 0 && !text::is_white(description[0]) && !text::is_white(
            description.last(),
        ),
        description[0] != '\'' && description.last() != '\'',
        !begins(description, "a "@),
        tail == description || tail == "a "@ + description || tail == seq!['\''] + description
            + seq!['\''],
    ensures
        bare_description(tail) == description,
{
    reveal_strlit("a ");
    assert(!text::is_white('a') && !text::is_white('\''));
    text::lemma_trim_nothing(tail);
    if tail == description {
    } else if tail == "a "@ + description {
        assert(tail[0] == 'a');
        assert(tail.take(2) =~= "a "@);
        assert(tail.skip(2) =~= description);
    } else {
        let led = tail.drop_first();
        assert(tail[0] == '\'');
        assert(led =~= description + seq!['\'']);
        assert(drop_leading(tail, '\'') == drop_leading(led, '\''));
        assert(led[0] == description[0]);
        assert(drop_leading(led, '\'') == led);
        assert(led.last() == '\'');
        assert(led.drop_last() =~= description);
        assert(drop_trailing(led, '\'') == drop_trailing(description, '\''));
    }
}

/// A line that does not begin with the quoted name of a device says no device, and adds none.
pub proof fn law_other_lines_say_nothing(all: Seq<Seq<char>>, line: Seq<char>)
    requires
        !begins(trim(line), "device '"@) && !begins(trim(line), "device `"@) || !holds(
            trim(line),
            "' is "@,
        ),
    ensures
        sighting_in(line) is None,
        sightings_in(all.push(line)) == sightings_in(all),
        sightings_in(Seq::<Seq<char>>::empty()).len() == 0,
{
    reveal_strlit("device '");
    reveal_strlit("device `");
    assert(all.push(line).drop_last() =~= all);
    let t = trim(line);
    match behind_opening(t) {
        Some(rest) => {
            text::lemma_find(rest, "' is "@);
            text::lemma_find(t, "' is "@);
            assert(rest =~= t.skip(8));
            match find(rest, "' is "@) {
                Some(i) => {
                    let n = "' is "@.len();
                    assert(t.subrange(i + 8, i + 8 + n) =~= rest.subrange(i, i + n));
                    assert(text::occurs_at(t, "' is "@, i + 8));
                },
                None => {},
            }
        },
        None => {},
    }
}

} // verus!
