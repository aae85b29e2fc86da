//! From sightings to scanners: which of them are one device, and what each can do.
use vstd::prelude::*;

use crate::brother::acquisition::{
    described_sources, sources_from_description, EsclDevice, EsclDeviceView,
};
use crate::brother::sightings::{
    called, display_name, ipv4, is_brother_sighting, of_brother, quad_in, sighting_views, Sighting,
    SightingView, Transport,
};
use crate::keyed::{found, Keyed};
use crate::model::{
    dict_get, dict_view, either, lemma_dict_push, lemma_dict_value, nested_str, nested_text,
    optional, put, scanner_id, scanner_views, BackendError, BackendErrorView, ButtonsCapability,
    Capabilities, CapabilitiesView, ColorMode, ScannerId, ScannerInfo, ScannerInfoView, Source,
    Status, Value, ValueView, NO_ADDRESS,
};
use crate::net::{ipv4_text, law_address_text_reads_back, parse_ipv4, Ipv4Addr};
use crate::skey::function::Function;
use crate::text;
use crate::text::{holds, lower, precedes};

verus! {

/// What scanner ids begin with.
pub const SCANNER_ID_BACKEND: &'static str = "brother";

/// What a scanner says its backend is.
pub const SCANNER_BACKEND_NAME: &'static str = "escl:brother";

// ------------------------------------------------------------------------- what is installed

/// What the checks together say about one package.
#[derive(Debug, Clone, Copy, PartialEq, Eq, Structural)]
pub enum Presence {
    /// Files are on disk. The package can be used, whatever the packaging system thinks.
    Present,
    /// The packaging system has the package registered as installed, and none of its files
    /// are there.
    RegisteredButMissing,
    /// Neither check found anything.
    Absent,
}

impl Default for Presence {
    fn default() -> (r: Self)
        ensures
            r == Presence::Absent,
    {
        Presence::Absent
    }
}

impl Presence {
    /// Whether a package that is there like this can be used.
    pub fn is_usable(self) -> (r: bool)
        ensures
            r == (self == Presence::Present),
    {
        match self {
            Presence::Present => true,
            _ => false,
        }
    }
}

/// What this machine can acquire with.
#[derive(Debug, Clone, Copy, PartialEq, Eq, Structural)]
pub struct InstalledState {
    pub airscan: Presence,
}

impl Default for InstalledState {
    fn default() -> (r: Self)
        ensures
            r.airscan == Presence::Absent,
    {
        InstalledState { airscan: Presence::Absent }
    }
}

// --------------------------------------------------------------------------------- scan to PC

/// What a device has said about scan-to-PC, when it was asked.
#[derive(Debug, Clone, PartialEq, Eq)]
pub enum ScanToPc {
    /// The device knows the scan-key object. Its panel keys are worth offering.
    Available,
    /// It cannot be registered, for this reason.
    Unavailable { reason: String },
}

/// What a [`ScanToPc`] says.
pub enum ScanToPcView {
    Available,
    Unavailable { reason: Seq<char> },
}

impl View for ScanToPc {
    type V = ScanToPcView;

    open spec fn view(&self) -> ScanToPcView {
        match *self {
            ScanToPc::Available => ScanToPcView::Available,
            ScanToPc::Unavailable { reason } => ScanToPcView::Unavailable { reason: reason@ },
        }
    }
}

/// What is noted of a scanner, where something is.
pub open spec fn note_of(notes: Map<Seq<char>, ScanToPc>, id: Seq<char>) -> Option<ScanToPcView> {
    match found(notes, id) {
        Some(note) => Some(note@),
        None => None,
    }
}

// ------------------------------------------------------------------------------- enrichments

/// What the eSCL sightings of a model say of its one device.
#[derive(Debug, Clone, PartialEq, Eq)]
pub struct Enrichment {
    pub address_hint: Option<String>,
    pub stable_hint: Option<String>,
}

/// What an [`Enrichment`] says.
pub struct EnrichmentView {
    pub address_hint: Option<Seq<char>>,
    pub stable_hint: Option<Seq<char>>,
}

impl View for Enrichment {
    type V = EnrichmentView;

    open spec fn view(&self) -> EnrichmentView {
        EnrichmentView {
            address_hint: optional(self.address_hint),
            stable_hint: optional(self.stable_hint),
        }
    }
}

/// Whether a sighting tells of the one device of a model.
pub open spec fn tells_of(s: SightingView, key: Seq<char>) -> bool {
    s.transport.escl() && of_brother(s) && s.model_key == Some(key)
}

/// The addresses that the eSCL sightings of a model say.
pub open spec fn address_hints(all: Seq<SightingView>, key: Seq<char>) -> Seq<Seq<char>>
    decreases all.len(),
{
    if all.len() == 0 {
        seq![]
    } else {
        let front = address_hints(all.drop_last(), key);
        if tells_of(all.last(), key) && all.last().address_hint is Some {
            front.push(all.last().address_hint->Some_0)
        } else {
            front
        }
    }
}

/// The stable names that the eSCL sightings of a model say.
pub open spec fn stable_hints(all: Seq<SightingView>, key: Seq<char>) -> Seq<Seq<char>>
    decreases all.len(),
{
    if all.len() == 0 {
        seq![]
    } else {
        let front = stable_hints(all.drop_last(), key);
        if tells_of(all.last(), key) && all.last().stable_hint is Some {
            front.push(all.last().stable_hint->Some_0)
        } else {
            front
        }
    }
}

/// What several texts say when they all say the same.
pub open spec fn unique(hints: Seq<Seq<char>>) -> Option<Seq<char>> {
    if hints.len() > 0 && forall|i: int| 0 <= i < hints.len() ==> #[trigger] hints[i] == hints[0] {
        Some(hints[0])
    } else {
        None
    }
}

/// What the eSCL sightings of a model say of its one device.
pub open spec fn enrichment_of(all: Seq<SightingView>, key: Seq<char>) -> EnrichmentView {
    EnrichmentView {
        address_hint: unique(address_hints(all, key)),
        stable_hint: unique(stable_hints(all, key)),
    }
}

/// The one entry of a list in which every entry is the same.
pub fn unique_entry(hints: &Vec<String>) -> (r: Option<String>)
    ensures
        match r {
            Some(h) => unique(text::all_texts(hints@)) == Some(h@),
            None => unique(text::all_texts(hints@)) is None,
        },
{
    let ghost all = text::all_texts(hints@);
    if hints.len() == 0 {
        return None;
    }
    assert(all[0] == hints@[0]@);
    let mut i: usize = 1;
    while i < hints.len()
        invariant
            1 <= i <= hints@.len(),
            all == text::all_texts(hints@),
            forall|j: int| 0 <= j < i ==> #[trigger] all[j] == all[0],
        decreases hints@.len() - i,
    {
        assert(all[i as int] == hints@[i as int]@ && all[0] == hints@[0]@);
        if !text::same(hints[i].as_str(), hints[0].as_str()) {
            assert(all[i as int] != all[0]);
            return None;
        }
        i = i + 1;
    }
    Some(hints[0].clone())
}

fn has_key(sighting: &Sighting, key: &str) -> (r: bool)
    ensures
        r == (sighting@.model_key == Some(key@)),
{
    match &sighting.model_key {
        Some(k) => text::same(k.as_str(), key),
        None => false,
    }
}

/// What the eSCL sightings of a model say of its one device.
pub fn enrichment_for(sightings: &Vec<Sighting>, key: &str) -> (r: Enrichment)
    ensures
        r@ == enrichment_of(sighting_views(sightings@), key@),
{
    let ghost all = sighting_views(sightings@);
    let mut addresses: Vec<String> = Vec::new();
    let mut stable: Vec<String> = Vec::new();
    let mut i: usize = 0;
    assert(all.take(0) =~= Seq::<SightingView>::empty());
    assert(text::all_texts(addresses@) =~= seq![]);
    assert(text::all_texts(stable@) =~= seq![]);
    while i < sightings.len()
        invariant
            i <= sightings@.len(),
            all == sighting_views(sightings@),
            text::all_texts(addresses@) == address_hints(all.take(i as int), key@),
            text::all_texts(stable@) == stable_hints(all.take(i as int), key@),
        decreases sightings@.len() - i,
    {
        let ghost old_addresses = addresses@;
        let ghost old_stable = stable@;
        let sighting = &sightings[i];
        proof {
            assert(all.take(i + 1).last() == sighting@);
            assert(all.take(i + 1).drop_last() =~= all.take(i as int));
        }
        if sighting.transport.is_escl() && is_brother_sighting(sighting) && has_key(sighting, key) {
            match &sighting.address_hint {
                Some(hint) => {
                    addresses.push(hint.clone());
                    assert(text::all_texts(addresses@) =~= text::all_texts(old_addresses).push(
                        hint@,
                    ));
                },
                None => {},
            }
            match &sighting.stable_hint {
                Some(hint) => {
                    stable.push(hint.clone());
                    assert(text::all_texts(stable@) =~= text::all_texts(old_stable).push(hint@));
                },
                None => {},
            }
        }
        i = i + 1;
    }
    assert(all.take(i as int) =~= all);
    Enrichment { address_hint: unique_entry(&addresses), stable_hint: unique_entry(&stable) }
}

/// Whether an enrichment says anything.
pub open spec fn says_something(e: EnrichmentView) -> bool {
    e.address_hint is Some || e.stable_hint is Some
}

/// Whether a map holds what the eSCL sightings say of each model of which they say
/// anything.
pub open spec fn holds_enrichments(
    m: Map<Seq<char>, Enrichment>,
    all: Seq<SightingView>,
) -> bool {
    &&& forall|key: Seq<char>| #[trigger]
        m.dom().contains(key) ==> m[key]@ == enrichment_of(all, key) && says_something(m[key]@)
    &&& forall|i: int|
        0 <= i < all.len() ==> ((#[trigger] all[i]).model_key matches Some(key) ==> (
        says_something(enrichment_of(all, key)) ==> m.dom().contains(key)))
}

/// What the eSCL sightings say of each model's one device, by model. Of a model of which
/// they contradict each other they say nothing.
pub fn enrichments_by_model(sightings: &Vec<Sighting>) -> (r: Keyed<Enrichment>)
    ensures
        holds_enrichments(r@, sighting_views(sightings@)),
{
    let ghost all = sighting_views(sightings@);
    let mut out: Keyed<Enrichment> = Keyed::new();
    let mut i: usize = 0;
    while i < sightings.len()
        invariant
            i <= sightings@.len(),
            all == sighting_views(sightings@),
            forall|key: Seq<char>| #[trigger]
                out@.dom().contains(key) ==> out@[key]@ == enrichment_of(all, key)
                    && says_something(out@[key]@),
            forall|j: int|
                0 <= j < i ==> ((#[trigger] all[j]).model_key matches Some(key) ==> (
                says_something(enrichment_of(all, key)) ==> out@.dom().contains(key))),
        decreases sightings@.len() - i,
    {
        assert(all[i as int] == sightings@[i as int]@);
        match &sightings[i].model_key {
            Some(key) => {
                let enrichment = enrichment_for(sightings, key.as_str());
                if enrichment.address_hint.is_some() || enrichment.stable_hint.is_some() {
                    out.insert(key.clone(), enrichment);
                }
            },
            None => {},
        }
        i = i + 1;
    }
    out
}

// ------------------------------------------------------------------------------ capabilities

/// The resolutions published where a sighting is silent about them.
pub open spec fn baseline_resolutions() -> Seq<u32> {
    seq![100, 200, 300, 600]
}

/// The labels of the panel's entries, in button order.
pub open spec fn panel_labels() -> Seq<Seq<char>> {
    seq![
        Function::File.label(),
        Function::Image.label(),
        Function::Ocr.label(),
        Function::Email.label(),
    ]
}

/// What a sighting says that the device can do.
pub open spec fn sighted_capabilities(s: SightingView) -> CapabilitiesView {
    CapabilitiesView {
        resolutions: if s.transport.escl() {
            baseline_resolutions()
        } else {
            seq![]
        },
        color_modes: if s.transport.escl() {
            seq![ColorMode::Color, ColorMode::Gray]
        } else {
            seq![]
        },
        sources: if s.transport.escl() {
            match described_sources(s.description) {
                Some(sources) => sources,
                None => seq![Source::Flatbed],
            }
        } else {
            seq![]
        },
        duplex: s.transport.escl() && holds(lower(s.description), "duplex"@),
        buttons: 4,
        label_configurable: false,
        labels: panel_labels(),
        extra: seq![],
    }
}

/// The panel's menu: the four entries of the protocol, with their labels.
pub fn panel_buttons() -> (r: ButtonsCapability)
    ensures
        r.count == 4,
        !r.label_configurable,
        text::all_texts(r.labels@) == panel_labels(),
{
    let mut labels: Vec<String> = Vec::new();
    labels.push(Function::File.device_label().to_owned());
    labels.push(Function::Image.device_label().to_owned());
    labels.push(Function::Ocr.device_label().to_owned());
    labels.push(Function::Email.device_label().to_owned());
    assert(text::all_texts(labels@) =~= panel_labels());
    ButtonsCapability { count: 4, label_configurable: false, labels }
}

/// What a sighting says that the device can do. One through a vendor backend says nothing
/// of what it can be asked for.
pub fn escl_capabilities(sighting: &Sighting) -> (r: Capabilities)
    ensures
        r@ == sighted_capabilities(sighting@),
{
    let mut out = Capabilities {
        resolutions: Vec::new(),
        color_modes: Vec::new(),
        sources: Vec::new(),
        duplex: false,
        buttons: panel_buttons(),
        extra: Vec::new(),
    };
    if sighting.transport.is_escl() {
        out.resolutions = vec![100u32, 200u32, 300u32, 600u32];
        out.color_modes = vec![ColorMode::Color, ColorMode::Gray];
        out.sources = match sources_from_description(sighting.description.as_str()) {
            Some(sources) => sources,
            None => vec![Source::Flatbed],
        };
        out.duplex = text::contains(
            text::lower_text(sighting.description.as_str()).as_str(),
            "duplex",
        );
    }
    proof {
        assert(out@.extra =~= seq![]);
        assert(out@.resolutions =~= sighted_capabilities(sighting@).resolutions);
        assert(out@.color_modes =~= sighted_capabilities(sighting@).color_modes);
        assert(out@.sources =~= sighted_capabilities(sighting@).sources);
    }
    out
}

/// Entries with one more, where there is something to say.
pub open spec fn with_text(
    entries: Seq<(Seq<char>, ValueView)>,
    key: Seq<char>,
    value: Option<Seq<char>>,
) -> Seq<(Seq<char>, ValueView)> {
    match value {
        Some(v) => entries.push((key, ValueView::Str(v))),
        None => entries,
    }
}

/// Entries with what the device said of its panel keys.
pub open spec fn with_note(
    entries: Seq<(Seq<char>, ValueView)>,
    note: Option<ScanToPcView>,
) -> Seq<(Seq<char>, ValueView)> {
    match note {
        Some(ScanToPcView::Available) => entries.push(("scan_to_pc"@, ValueView::Bool(true))),
        Some(ScanToPcView::Unavailable { reason }) => entries.push(
            ("scan_to_pc"@, ValueView::Bool(false)),
        ).push(("scan_to_pc_reason"@, ValueView::Str(reason))),
        None => entries,
    }
}

/// What the backend adds to a scanner's capabilities, by key in order.
pub open spec fn brother_entries(
    s: SightingView,
    installed: InstalledState,
    note: Option<ScanToPcView>,
) -> Seq<(Seq<char>, ValueView)> {
    let acquired = with_text(
        seq![],
        "acquisition_uri"@,
        if s.transport.escl() {
            Some(s.device_uri)
        } else {
            None
        },
    );
    let named = acquired.push(
        ("airscan_installed"@, ValueView::Bool(installed.airscan == Presence::Present)),
    ).push(("device_uri"@, ValueView::Str(s.device_uri)));
    let placed = with_text(
        with_text(named, "model"@, s.model),
        "physical_address"@,
        s.address_hint,
    );
    with_text(with_note(placed, note), "stable_hint"@, s.stable_hint).push(
        ("transport"@, ValueView::Str(s.transport.name())),
    )
}

/// What one sighting can do, with what the device itself said about its panel keys.
pub open spec fn capabilities_of(
    s: SightingView,
    installed: InstalledState,
    note: Option<ScanToPcView>,
) -> CapabilitiesView {
    let sighted = sighted_capabilities(s);
    let refused = note is Some && note->Some_0 is Unavailable;
    CapabilitiesView {
        buttons: if refused {
            0
        } else {
            sighted.buttons
        },
        labels: if refused {
            seq![]
        } else {
            sighted.labels
        },
        extra: seq![("brother"@, ValueView::Dict(brother_entries(s, installed, note)))],
        ..sighted
    }
}

fn put_text(entries: &mut Vec<(String, Value)>, key: &str, value: &Option<String>)
    ensures
        dict_view(final(entries)@) == with_text(dict_view(old(entries)@), key@, optional(*value)),
{
    match value {
        Some(v) => {
            put(entries, key, Value::Str(v.clone()));
        },
        None => {},
    }
}

/// What is said of a device that may have been asked.
pub open spec fn noted(scan_to_pc: Option<&ScanToPc>) -> Option<ScanToPcView> {
    match scan_to_pc {
        Some(note) => Some(note@),
        None => None,
    }
}

/// What one sighting can do, including what the device itself said about its panel keys. A
/// device that has never been asked keeps its keys.
pub fn capabilities_for_sighting(
    sighting: &Sighting,
    installed: InstalledState,
    scan_to_pc: Option<&ScanToPc>,
) -> (r: Capabilities)
    ensures
        r@ == capabilities_of(sighting@, installed, noted(scan_to_pc)),
{
    let mut capabilities = escl_capabilities(sighting);
    let mut inner: Vec<(String, Value)> = Vec::new();
    assert(dict_view(inner@) =~= seq![]);
    if sighting.transport.is_escl() {
        put(&mut inner, "acquisition_uri", Value::Str(sighting.device_uri.clone()));
    }
    put(&mut inner, "airscan_installed", Value::Bool(installed.airscan.is_usable()));
    put(&mut inner, "device_uri", Value::Str(sighting.device_uri.clone()));
    put_text(&mut inner, "model", &sighting.model);
    put_text(&mut inner, "physical_address", &sighting.address_hint);
    match scan_to_pc {
        Some(ScanToPc::Available) => {
            put(&mut inner, "scan_to_pc", Value::Bool(true));
        },
        Some(ScanToPc::Unavailable { reason }) => {
            capabilities.buttons = ButtonsCapability {
                count: 0,
                label_configurable: false,
                labels: Vec::new(),
            };
            assert(text::all_texts(capabilities.buttons.labels@) =~= seq![]);
            put(&mut inner, "scan_to_pc", Value::Bool(false));
            put(&mut inner, "scan_to_pc_reason", Value::Str(reason.clone()));
        },
        None => {},
    }
    put_text(&mut inner, "stable_hint", &sighting.stable_hint);
    put(&mut inner, "transport", Value::Str(sighting.transport.as_str().to_owned()));
    proof {
        lemma_dict_value(inner);
    }
    let ghost before = dict_view(capabilities.extra@);
    put(&mut capabilities.extra, "brother", Value::Dict(inner));
    proof {
        assert(before =~= seq![]);
        assert(capabilities@.extra =~= capabilities_of(
            sighting@,
            installed,
            noted(scan_to_pc),
        ).extra);
    }
    capabilities
}

// ----------------------------------------------------------------------------------- scanners

/// A scanner that a sighting makes; the lower its precedence, the better the sighting.
pub struct CandidateView {
    pub precedence: int,
    pub info: ScannerInfoView,
}

/// Where a sighted device is reached.
pub open spec fn sighted_address(s: SightingView, all: Seq<SightingView>) -> Seq<char> {
    let hint = match s.model_key {
        Some(key) => enrichment_of(all, key).address_hint,
        None => None,
    };
    match either(s.address_hint, hint) {
        Some(address) => address,
        None => s.device_uri,
    }
}

/// What a sighted device is told apart by.
pub open spec fn sighted_identity(s: SightingView, all: Seq<SightingView>) -> Seq<char> {
    let hint = match s.model_key {
        Some(key) => enrichment_of(all, key).stable_hint,
        None => None,
    };
    match either(s.stable_hint, hint) {
        Some(identity) => identity,
        None => sighted_address(s, all),
    }
}

/// The scanner that a sighting makes; none where nothing tells it apart.
pub open spec fn candidate_of(
    s: SightingView,
    all: Seq<SightingView>,
    installed: InstalledState,
    notes: Map<Seq<char>, ScanToPc>,
) -> Option<CandidateView> {
    match scanner_id(SCANNER_ID_BACKEND@, sighted_identity(s, all)) {
        None => None,
        Some(id) => Some(
            CandidateView {
                precedence: if s.transport.escl() {
                    0
                } else {
                    1
                },
                info: ScannerInfoView {
                    id,
                    name: match s.model {
                        Some(model) => model,
                        None => called(s.description),
                    },
                    backend: SCANNER_BACKEND_NAME@,
                    address: sighted_address(s, all),
                    capabilities: capabilities_of(s, installed, note_of(notes, id)),
                    status: Status::Online,
                },
            },
        ),
    }
}

/// A list in the order of ids with one more candidate: of two with one id the better stays,
/// and of two as good the earlier.
pub open spec fn placed(list: Seq<CandidateView>, c: CandidateView) -> Seq<CandidateView>
    decreases list.len(),
{
    if list.len() == 0 {
        seq![c]
    } else if list[0].info.id == c.info.id {
        if list[0].precedence <= c.precedence {
            list
        } else {
            seq![c] + list.drop_first()
        }
    } else if precedes(c.info.id, list[0].info.id) {
        seq![c] + list
    } else {
        seq![list[0]] + placed(list.drop_first(), c)
    }
}

/// The candidates that several sightings leave, of which the first `n` are looked at.
pub open spec fn merged(
    all: Seq<SightingView>,
    n: nat,
    installed: InstalledState,
    notes: Map<Seq<char>, ScanToPc>,
) -> Seq<CandidateView>
    decreases n,
{
    if n == 0 {
        seq![]
    } else {
        let front = merged(all, (n - 1) as nat, installed, notes);
        let s = all[n - 1];
        if of_brother(s) {
            match candidate_of(s, all, installed, notes) {
                Some(c) => placed(front, c),
                None => front,
            }
        } else {
            front
        }
    }
}

/// Whether something tells every Brother device apart.
pub open spec fn all_identified(all: Seq<SightingView>) -> bool {
    forall|i: int|
        0 <= i < all.len() && of_brother(#[trigger] all[i]) ==> sighted_identity(all[i], all).len()
            > 0
}

/// The scanners that candidates are.
pub open spec fn infos(list: Seq<CandidateView>) -> Seq<ScannerInfoView> {
    list.map_values(|c: CandidateView| c.info)
}

/// The scanners that several sightings make, in the order of their ids.
pub open spec fn sighted_scanners(
    all: Seq<SightingView>,
    installed: InstalledState,
    notes: Map<Seq<char>, ScanToPc>,
) -> Seq<ScannerInfoView> {
    infos(merged(all, all.len(), installed, notes))
}

struct Candidate {
    precedence: u8,
    info: ScannerInfo,
}

impl View for Candidate {
    type V = CandidateView;

    closed spec fn view(&self) -> CandidateView {
        CandidateView { precedence: self.precedence as int, info: self.info@ }
    }
}

spec fn candidate_views(v: Seq<Candidate>) -> Seq<CandidateView> {
    v.map_values(|c: Candidate| c@)
}

fn place(list: &mut Vec<Candidate>, c: Candidate)
    ensures
        candidate_views(final(list)@) == placed(candidate_views(old(list)@), c@),
{
    let ghost before = list@;
    let ghost all = candidate_views(before);
    let ghost said = c@;
    let mut i: usize = 0;
    assert(all.skip(0) =~= all);
    assert(all.take(0) + placed(all.skip(0), said) =~= placed(all, said));
    while i < list.len() && list[i].info.id.comes_before(&c.info.id)
        invariant
            list@ == before,
            all == candidate_views(before),
            said == c@,
            i <= list@.len(),
            all.take(i as int) + placed(all.skip(i as int), said) =~= placed(all, said),
        decreases list@.len() - i,
    {
        proof {
            let rest = all.skip(i as int);
            assert(rest[0] == all[i as int]);
            assert(rest.drop_first() =~= all.skip(i + 1));
            text::lemma_precedes_total(rest[0].info.id, said.info.id);
            assert(all.take(i + 1) =~= all.take(i as int).push(all[i as int]));
        }
        i = i + 1;
    }
    let ghost rest = all.skip(i as int);
    if i < list.len() {
        proof {
            assert(rest[0] == all[i as int]);
            text::lemma_precedes_total(rest[0].info.id, said.info.id);
        }
        if list[i].info.id.same(&c.info.id) {
            if list[i].precedence > c.precedence {
                list.set(i, c);
                assert(candidate_views(list@) =~= all.take(i as int) + (seq![said]
                    + rest.drop_first()));
            } else {
                assert(all =~= all.take(i as int) + rest);
            }
        } else {
            list.insert(i, c);
            assert(candidate_views(list@) =~= all.take(i as int) + (seq![said] + rest));
        }
    } else {
        assert(rest =~= seq![]);
        list.push(c);
        assert(candidate_views(list@) =~= all.take(i as int) + seq![said]);
    }
}

fn first_there(a: &Option<String>, b: &Option<String>) -> (r: Option<String>)
    ensures
        optional(r) == either(optional(*a), optional(*b)),
{
    match a {
        Some(x) => Some(x.clone()),
        None => match b {
            Some(y) => Some(y.clone()),
            None => None,
        },
    }
}

fn candidate(
    sighting: &Sighting,
    enrichments: &Keyed<Enrichment>,
    installed: InstalledState,
    scan_to_pc: &Keyed<ScanToPc>,
    Ghost(all): Ghost<Seq<SightingView>>,
) -> (r: Result<Candidate, BackendError>)
    requires
        holds_enrichments(enrichments@, all),
        all.contains(sighting@),
    ensures
        match candidate_of(sighting@, all, installed, scan_to_pc@) {
            Some(c) => r matches Ok(x) && x@ == c,
            None => r matches Err(e) && e@ == BackendErrorView::Other(NO_ADDRESS@),
        },
{
    let (address_hint, stable_hint) = match &sighting.model_key {
        Some(key) => {
            let known = enrichments.get(key.as_str());
            proof {
                let i = choose|i: int| 0 <= i < all.len() && all[i] == sighting@;
                assert(all[i].model_key == Some(key@));
            }
            match known {
                Some(e) => (
                    first_there(&sighting.address_hint, &e.address_hint),
                    first_there(&sighting.stable_hint, &e.stable_hint),
                ),
                None => (
                    first_there(&sighting.address_hint, &None),
                    first_there(&sighting.stable_hint, &None),
                ),
            }
        },
        None => (
            first_there(&sighting.address_hint, &None),
            first_there(&sighting.stable_hint, &None),
        ),
    };
    let address = match address_hint {
        Some(address) => address,
        None => sighting.device_uri.clone(),
    };
    let identity = match stable_hint {
        Some(identity) => identity,
        None => address.clone(),
    };
    let id = match ScannerId::from_backend(SCANNER_ID_BACKEND, identity.as_str()) {
        Ok(id) => id,
        Err(error) => {
            return Err(BackendError::Other(error));
        },
    };
    let name = match &sighting.model {
        Some(model) => model.clone(),
        None => display_name(sighting.description.as_str()),
    };
    let capabilities = capabilities_for_sighting(
        sighting,
        installed,
        scan_to_pc.get(id.as_str()),
    );
    let precedence: u8 = if sighting.transport.is_escl() {
        0
    } else {
        1
    };
    Ok(
        Candidate {
            precedence,
            info: ScannerInfo {
                id,
                name,
                backend: SCANNER_BACKEND_NAME.to_owned(),
                address,
                capabilities,
                status: Status::Online,
            },
        },
    )
}

/// The scanners that several sightings make, in the order of their ids. The eSCL sighting of
/// a device is the one that survives: it is the one a scan can be run against. A device seen
/// only through a vendor backend is still a scanner.
pub fn scanners_from_sightings(
    sightings: Vec<Sighting>,
    installed: InstalledState,
    scan_to_pc: &Keyed<ScanToPc>,
) -> (r: Result<Vec<ScannerInfo>, BackendError>)
    ensures
        match r {
            Ok(v) => all_identified(sighting_views(sightings@)) && scanner_views(v@)
                == sighted_scanners(sighting_views(sightings@), installed, scan_to_pc@),
            Err(e) => !all_identified(sighting_views(sightings@)) && e@ == BackendErrorView::Other(
                NO_ADDRESS@,
            ),
        },
{
    let ghost all = sighting_views(sightings@);
    let enrichments = enrichments_by_model(&sightings);
    let mut list: Vec<Candidate> = Vec::new();
    let mut i: usize = 0;
    assert(candidate_views(list@) =~= seq![]);
    while i < sightings.len()
        invariant
            i <= sightings@.len(),
            all == sighting_views(sightings@),
            holds_enrichments(enrichments@, all),
            candidate_views(list@) == merged(all, i as nat, installed, scan_to_pc@),
            forall|j: int|
                0 <= j < i && of_brother(#[trigger] all[j]) ==> sighted_identity(all[j], all).len()
                    > 0,
        decreases sightings@.len() - i,
    {
        assert(all[i as int] == sightings@[i as int]@);
        if is_brother_sighting(&sightings[i]) {
            match candidate(&sightings[i], &enrichments, installed, scan_to_pc, Ghost(all)) {
                Ok(c) => {
                    place(&mut list, c);
                },
                Err(error) => {
                    return Err(error);
                },
            }
        }
        i = i + 1;
    }
    let ghost kept = candidate_views(list@);
    let ghost held = list@;
    let total: usize = list.len();
    let mut out: Vec<ScannerInfo> = Vec::new();
    let mut done: usize = 0;
    while done < total
        invariant
            done <= total,
            held.len() == total,
            kept == candidate_views(held),
            list@ =~= held.skip(done as int),
            scanner_views(out@) =~= infos(kept).take(done as int),
        decreases total - done,
    {
        let ghost before = out@;
        let c = list.remove(0);
        assert(c == held[done as int]);
        out.push(c.info);
        assert(scanner_views(out@) =~= scanner_views(before).push(kept[done as int].info));
        done = done + 1;
    }
    assert(infos(kept).take(done as int) =~= infos(kept));
    Ok(out)
}

// ----------------------------------------------------------------------------- reading back

/// The device that a scanner is acquired from, if it has one.
pub open spec fn device_in(scanner: ScannerInfoView) -> Option<EsclDeviceView> {
    match nested_text(scanner.capabilities.extra, "brother"@, "acquisition_uri"@) {
        Some(device_uri) => Some(
            EsclDeviceView {
                device_uri,
                resolutions: scanner.capabilities.resolutions,
                color_modes: scanner.capabilities.color_modes,
                sources: scanner.capabilities.sources,
            },
        ),
        None => None,
    }
}

fn copy_numbers(v: &Vec<u32>) -> (r: Vec<u32>)
    ensures
        r@ == v@,
{
    vstd::slice::slice_to_vec(v.as_slice())
}

/// The device that a discovered scanner is acquired from, if it has one. Read back out of
/// the capabilities, so that what a client sees and what a scan runs against are the same.
pub fn escl_device(scanner: &ScannerInfo) -> (r: Option<EsclDevice>)
    ensures
        match r {
            Some(d) => device_in(scanner@) == Some(d@),
            None => device_in(scanner@) is None,
        },
{
    match nested_str(&scanner.capabilities.extra, "brother", "acquisition_uri") {
        Some(uri) => Some(
            EsclDevice {
                device_uri: uri.clone(),
                resolutions: copy_numbers(&scanner.capabilities.resolutions),
                color_modes: vstd::slice::slice_to_vec(scanner.capabilities.color_modes.as_slice()),
                sources: vstd::slice::slice_to_vec(scanner.capabilities.sources.as_slice()),
            },
        ),
        None => None,
    }
}

/// The IPv4 address of a device, if discovery found one.
pub open spec fn ipv4_of(scanner: ScannerInfoView) -> Option<Ipv4Addr> {
    let physical = match nested_text(
        scanner.capabilities.extra,
        "brother"@,
        "physical_address"@,
    ) {
        Some(address) => quad_in(address),
        None => None,
    };
    match either(physical, quad_in(scanner.address)) {
        Some(quad) => parse_ipv4(quad),
        None => None,
    }
}

/// The IPv4 address of a device, if discovery found one. A device only known by a name has
/// none.
pub fn device_ipv4(scanner: &ScannerInfo) -> (r: Option<Ipv4Addr>)
    ensures
        r == ipv4_of(scanner@),
{
    let physical = match nested_str(&scanner.capabilities.extra, "brother", "physical_address") {
        Some(address) => ipv4(address.as_str()),
        None => None,
    };
    let quad = match physical {
        Some(quad) => Some(quad),
        None => ipv4(scanner.address.as_str()),
    };
    match quad {
        Some(quad) => Ipv4Addr::parse(quad.as_str()),
        None => None,
    }
}

// ------------------------------------------------------------------------------------ laws

/// Whether a list is in the order of ids, which then are all different.
pub open spec fn in_order(list: Seq<CandidateView>) -> bool {
    forall|i: int, j: int|
        0 <= i < j < list.len() ==> precedes(
            (#[trigger] list[i]).info.id,
            (#[trigger] list[j]).info.id,
        )
}

/// Whether the better of the candidates with an id, or one as good, is in a list.
pub open spec fn outdone(list: Seq<CandidateView>, c: CandidateView) -> bool {
    exists|i: int|
        0 <= i < list.len() && (#[trigger] list[i]).info.id == c.info.id && list[i].precedence
            <= c.precedence
}

proof fn lemma_placed_members(list: Seq<CandidateView>, c: CandidateView, i: int)
    requires
        0 <= i < placed(list, c).len(),
    ensures
        placed(list, c)[i] == c || list.contains(placed(list, c)[i]),
    decreases list.len(),
{
    let p = placed(list, c);
    if list.len() == 0 {
    } else if list[0].info.id == c.info.id {
        if list[0].precedence <= c.precedence {
            assert(list.contains(list[i]));
        } else if i > 0 {
            assert(p[i] == list[i]);
            assert(list.contains(list[i]));
        }
    } else if precedes(c.info.id, list[0].info.id) {
        if i > 0 {
            assert(p[i] == list[i - 1]);
            assert(list.contains(list[i - 1]));
        }
    } else {
        if i == 0 {
            assert(list.contains(list[0]));
        } else {
            let rest = list.drop_first();
            assert(p[i] == placed(rest, c)[i - 1]);
            lemma_placed_members(rest, c, i - 1);
            if rest.contains(p[i]) {
                let j = choose|j: int| 0 <= j < rest.len() && rest[j] == p[i];
                assert(list[j + 1] == p[i]);
            }
        }
    }
}

proof fn lemma_placed_order(list: Seq<CandidateView>, c: CandidateView)
    requires
        in_order(list),
    ensures
        in_order(placed(list, c)),
    decreases list.len(),
{
    let p = placed(list, c);
    if list.len() > 0 {
        let rest = list.drop_first();
        assert(in_order(rest)) by {
            assert forall|i: int, j: int| 0 <= i < j < rest.len() implies precedes(
                (#[trigger] rest[i]).info.id,
                (#[trigger] rest[j]).info.id,
            ) by {
                assert(rest[i] == list[i + 1] && rest[j] == list[j + 1]);
            }
        }
        if list[0].info.id == c.info.id {
            if list[0].precedence > c.precedence {
                assert forall|i: int, j: int| 0 <= i < j < p.len() implies precedes(
                    (#[trigger] p[i]).info.id,
                    (#[trigger] p[j]).info.id,
                ) by {
                    assert(p[j] == list[j]);
                    if i > 0 {
                        assert(p[i] == list[i]);
                    } else {
                        assert(list[0].info.id == p[0].info.id);
                    }
                }
            }
        } else if precedes(c.info.id, list[0].info.id) {
            assert forall|i: int, j: int| 0 <= i < j < p.len() implies precedes(
                (#[trigger] p[i]).info.id,
                (#[trigger] p[j]).info.id,
            ) by {
                assert(p[j] == list[j - 1]);
                if i > 0 {
                    assert(p[i] == list[i - 1]);
                } else if j > 1 {
                    assert(precedes(list[0].info.id, list[j - 1].info.id));
                    text::lemma_precedes_transitive(
                        c.info.id,
                        list[0].info.id,
                        list[j - 1].info.id,
                    );
                }
            }
        } else {
            text::lemma_precedes_total(c.info.id, list[0].info.id);
            lemma_placed_order(rest, c);
            let q = placed(rest, c);
            assert forall|i: int, j: int| 0 <= i < j < p.len() implies precedes(
                (#[trigger] p[i]).info.id,
                (#[trigger] p[j]).info.id,
            ) by {
                assert(p[j] == q[j - 1]);
                if i > 0 {
                    assert(p[i] == q[i - 1]);
                } else {
                    lemma_placed_members(rest, c, j - 1);
                    if q[j - 1] != c {
                        let k = choose|k: int| 0 <= k < rest.len() && rest[k] == q[j - 1];
                        assert(list[k + 1] == q[j - 1]);
                    }
                }
            }
        }
    }
}

proof fn lemma_placed_outdoes(list: Seq<CandidateView>, c: CandidateView, d: CandidateView)
    requires
        outdone(list, d) || d == c,
    ensures
        outdone(placed(list, c), d),
    decreases list.len(),
{
    let p = placed(list, c);
    if list.len() == 0 {
        assert(p[0] == c);
    } else {
        let rest = list.drop_first();
        let k = if outdone(list, d) {
            choose|k: int|
                0 <= k < list.len() && (#[trigger] list[k]).info.id == d.info.id
                    && list[k].precedence <= d.precedence
        } else {
            -1
        };
        if list[0].info.id == c.info.id {
            if list[0].precedence <= c.precedence {
                assert(p == list);
                if k == -1 {
                    assert(list[0].info.id == d.info.id);
                }
            } else {
                assert(p[0] == c);
                if k > 0 {
                    assert(p[k] == list[k]);
                }
            }
        } else if precedes(c.info.id, list[0].info.id) {
            assert(p[0] == c);
            if k >= 0 {
                assert(p[k + 1] == list[k]);
            }
        } else {
            let q = placed(rest, c);
            assert(p[0] == list[0]);
            if k != 0 {
                if k > 0 {
                    assert(rest[k - 1] == list[k]);
                }
                lemma_placed_outdoes(rest, c, d);
                let m = choose|m: int|
                    0 <= m < q.len() && (#[trigger] q[m]).info.id == d.info.id && q[m].precedence
                        <= d.precedence;
                assert(p[m + 1] == q[m]);
            }
        }
    }
}

proof fn lemma_merged_order(
    all: Seq<SightingView>,
    n: nat,
    installed: InstalledState,
    notes: Map<Seq<char>, ScanToPc>,
)
    requires
        n <= all.len(),
    ensures
        in_order(merged(all, n, installed, notes)),
    decreases n,
{
    if n > 0 {
        lemma_merged_order(all, (n - 1) as nat, installed, notes);
        let front = merged(all, (n - 1) as nat, installed, notes);
        match candidate_of(all[n - 1], all, installed, notes) {
            Some(c) => {
                lemma_placed_order(front, c);
            },
            None => {},
        }
    }
}

proof fn lemma_merged_outdoes(
    all: Seq<SightingView>,
    n: nat,
    installed: InstalledState,
    notes: Map<Seq<char>, ScanToPc>,
    i: int,
)
    requires
        n <= all.len(),
        0 <= i < n,
        of_brother(all[i]),
        candidate_of(all[i], all, installed, notes) is Some,
    ensures
        outdone(
            merged(all, n, installed, notes),
            candidate_of(all[i], all, installed, notes)->Some_0,
        ),
    decreases n,
{
    let d = candidate_of(all[i], all, installed, notes)->Some_0;
    let front = merged(all, (n - 1) as nat, installed, notes);
    if i < n - 1 {
        lemma_merged_outdoes(all, (n - 1) as nat, installed, notes, i);
    }
    if of_brother(all[n - 1]) {
        match candidate_of(all[n - 1], all, installed, notes) {
            Some(c) => {
                lemma_placed_outdoes(front, c, d);
            },
            None => {},
        }
    }
}

proof fn lemma_merged_members(
    all: Seq<SightingView>,
    n: nat,
    installed: InstalledState,
    notes: Map<Seq<char>, ScanToPc>,
    k: int,
)
    requires
        n <= all.len(),
        0 <= k < merged(all, n, installed, notes).len(),
    ensures
        exists|i: int|
            0 <= i < n && of_brother(#[trigger] all[i]) && candidate_of(
                all[i],
                all,
                installed,
                notes,
            ) == Some(merged(all, n, installed, notes)[k]),
    decreases n,
{
    if n > 0 {
        let front = merged(all, (n - 1) as nat, installed, notes);
        let list = merged(all, n, installed, notes);
        let c = candidate_of(all[n - 1], all, installed, notes);
        if of_brother(all[n - 1]) && c is Some {
            lemma_placed_members(front, c->Some_0, k);
            if list[k] == c->Some_0 {
                assert(of_brother(all[n - 1]));
            } else {
                let j = choose|j: int| 0 <= j < front.len() && front[j] == list[k];
                lemma_merged_members(all, (n - 1) as nat, installed, notes, j);
            }
        } else {
            lemma_merged_members(all, (n - 1) as nat, installed, notes, k);
        }
    }
}

/// Every device comes out once: the scanners are in the order of their ids, and no two have
/// one id.
pub proof fn law_a_device_is_one_scanner(
    all: Seq<SightingView>,
    installed: InstalledState,
    notes: Map<Seq<char>, ScanToPc>,
    i: int,
    j: int,
)
    requires
        0 <= i < j < sighted_scanners(all, installed, notes).len(),
    ensures
        precedes(
            sighted_scanners(all, installed, notes)[i].id,
            sighted_scanners(all, installed, notes)[j].id,
        ),
        sighted_scanners(all, installed, notes)[i].id != sighted_scanners(
            all,
            installed,
            notes,
        )[j].id,
{
    lemma_merged_order(all, all.len(), installed, notes);
    let list = merged(all, all.len(), installed, notes);
    assert(precedes(list[i].info.id, list[j].info.id));
    text::lemma_precedes_total(list[i].info.id, list[j].info.id);
}

/// Every Brother sighting comes out as a scanner, under its own id; and where a device was
/// seen over eSCL, the scanner that comes out for it can be acquired from.
pub proof fn law_the_best_sighting_survives(
    all: Seq<SightingView>,
    installed: InstalledState,
    notes: Map<Seq<char>, ScanToPc>,
    i: int,
)
    requires
        0 <= i < all.len(),
        of_brother(all[i]),
        sighted_identity(all[i], all).len() > 0,
    ensures
        exists|k: int|
            0 <= k < sighted_scanners(all, installed, notes).len() && Some(
                (#[trigger] sighted_scanners(all, installed, notes)[k]).id,
            ) == scanner_id(SCANNER_ID_BACKEND@, sighted_identity(all[i], all)) && (
            all[i].transport.escl() ==> device_in(
                sighted_scanners(all, installed, notes)[k],
            ) is Some),
{
    let list = merged(all, all.len(), installed, notes);
    let d = candidate_of(all[i], all, installed, notes)->Some_0;
    lemma_merged_outdoes(all, all.len(), installed, notes, i);
    let k = choose|k: int|
        0 <= k < list.len() && (#[trigger] list[k]).info.id == d.info.id && list[k].precedence
            <= d.precedence;
    lemma_merged_members(all, all.len(), installed, notes, k);
    let m = choose|m: int|
        0 <= m < all.len() && of_brother(#[trigger] all[m]) && candidate_of(
            all[m],
            all,
            installed,
            notes,
        ) == Some(list[k]);
    let scanner = sighted_scanners(all, installed, notes)[k];
    assert(scanner == list[k].info);
    if all[i].transport.escl() {
        law_the_published_device_is_the_acquired_one(
            all[m],
            installed,
            note_of(notes, scanner.id),
            scanner,
        );
    }
}

/// Whether a sighting is the best of those, among the first `n`, that make a scanner with its
/// id: none is better, and of those that are as good it is the first.
pub open spec fn is_best(
    all: Seq<SightingView>,
    n: nat,
    installed: InstalledState,
    notes: Map<Seq<char>, ScanToPc>,
    i: int,
) -> bool {
    &&& 0 <= i < n
    &&& of_brother(all[i])
    &&& candidate_of(all[i], all, installed, notes) matches Some(c) && forall|j: int|
        0 <= j < n && of_brother(#[trigger] all[j]) ==> (candidate_of(
            all[j],
            all,
            installed,
            notes,
        ) matches Some(d) ==> d.info.id == c.info.id ==> c.precedence < d.precedence
            || c.precedence == d.precedence && i <= j)
}

/// What a list with one more candidate holds: what it held, where that is not worse than the
/// candidate, and the candidate, where nothing with its id is as good.
proof fn lemma_placed_choice(list: Seq<CandidateView>, c: CandidateView, k: int)
    requires
        in_order(list),
        0 <= k < placed(list, c).len(),
    ensures
        ({
            let p = placed(list, c)[k];
            ||| exists|j: int|
                0 <= j < list.len() && (#[trigger] list[j]) == p && (p.info.id == c.info.id
                    ==> p.precedence <= c.precedence)
            ||| p == c && forall|j: int|
                0 <= j < list.len() && (#[trigger] list[j]).info.id == c.info.id
                    ==> list[j].precedence > c.precedence
        }),
    decreases list.len(),
{
    let p = placed(list, c);
    if list.len() > 0 {
        let first = list[0];
        let rest = list.drop_first();
        text::lemma_precedes_total(first.info.id, c.info.id);
        assert forall|j: int| 0 < j < list.len() implies precedes(
            first.info.id,
            (#[trigger] list[j]).info.id,
        ) by {
            assert(precedes(list[0].info.id, list[j].info.id));
        }
        if first.info.id == c.info.id {
            assert forall|j: int| 0 < j < list.len() implies (#[trigger] list[j]).info.id
                != c.info.id by {
                text::lemma_precedes_total(first.info.id, list[j].info.id);
            }
            if first.precedence <= c.precedence || k > 0 {
                assert(list[k] == p[k]);
            }
        } else if precedes(c.info.id, first.info.id) {
            assert forall|j: int| 0 <= j < list.len() implies (#[trigger] list[j]).info.id
                != c.info.id by {
                if j > 0 {
                    text::lemma_precedes_transitive(c.info.id, first.info.id, list[j].info.id);
                    text::lemma_precedes_total(c.info.id, list[j].info.id);
                }
            }
            if k > 0 {
                assert(list[k - 1] == p[k]);
            }
        } else if k == 0 {
            assert(list[0] == p[0]);
        } else {
            assert(in_order(rest)) by {
                assert forall|a: int, b: int| 0 <= a < b < rest.len() implies precedes(
                    (#[trigger] rest[a]).info.id,
                    (#[trigger] rest[b]).info.id,
                ) by {
                    assert(rest[a] == list[a + 1] && rest[b] == list[b + 1]);
                }
            }
            assert(p[k] == placed(rest, c)[k - 1]);
            lemma_placed_choice(rest, c, k - 1);
            if exists|j: int|
                0 <= j < rest.len() && (#[trigger] rest[j]) == p[k] && (p[k].info.id == c.info.id
                    ==> p[k].precedence <= c.precedence) {
                let j = choose|j: int|
                    0 <= j < rest.len() && (#[trigger] rest[j]) == p[k] && (p[k].info.id
                        == c.info.id ==> p[k].precedence <= c.precedence);
                assert(list[j + 1] == p[k]);
            } else {
                assert forall|j: int|
                    0 <= j < list.len() && (#[trigger] list[j]).info.id == c.info.id implies
                    list[j].precedence > c.precedence by {
                    assert(list[j] == rest[j - 1]);
                }
            }
        }
    }
}

proof fn lemma_merged_best(
    all: Seq<SightingView>,
    n: nat,
    installed: InstalledState,
    notes: Map<Seq<char>, ScanToPc>,
    k: int,
)
    requires
        n <= all.len(),
        0 <= k < merged(all, n, installed, notes).len(),
    ensures
        exists|i: int| #[trigger]
            is_best(all, n, installed, notes, i) && candidate_of(all[i], all, installed, notes)
                == Some(merged(all, n, installed, notes)[k]),
    decreases n,
{
    if n > 0 {
        let m = (n - 1) as nat;
        let front = merged(all, m, installed, notes);
        let list = merged(all, n, installed, notes);
        let last = candidate_of(all[n - 1], all, installed, notes);
        if of_brother(all[n - 1]) && last is Some {
            let c = last->Some_0;
            lemma_merged_order(all, m, installed, notes);
            lemma_placed_choice(front, c, k);
            if exists|j: int|
                0 <= j < front.len() && (#[trigger] front[j]) == list[k] && (list[k].info.id
                    == c.info.id ==> list[k].precedence <= c.precedence) {
                let j = choose|j: int|
                    0 <= j < front.len() && (#[trigger] front[j]) == list[k] && (list[k].info.id
                        == c.info.id ==> list[k].precedence <= c.precedence);
                lemma_merged_best(all, m, installed, notes, j);
                let i = choose|i: int| #[trigger]
                    is_best(all, m, installed, notes, i) && candidate_of(
                        all[i],
                        all,
                        installed,
                        notes,
                    ) == Some(front[j]);
                assert(is_best(all, n, installed, notes, i));
            } else {
                assert forall|j: int|
                    0 <= j < n && of_brother(#[trigger] all[j]) implies (candidate_of(
                    all[j],
                    all,
                    installed,
                    notes,
                ) matches Some(d) ==> d.info.id == c.info.id ==> c.precedence < d.precedence
                    || c.precedence == d.precedence && n - 1 <= j) by {
                    match candidate_of(all[j], all, installed, notes) {
                        Some(d) => {
                            if j < n - 1 && d.info.id == c.info.id {
                                lemma_merged_outdoes(all, m, installed, notes, j);
                                let h = choose|h: int|
                                    0 <= h < front.len() && (#[trigger] front[h]).info.id
                                        == d.info.id && front[h].precedence <= d.precedence;
                                assert(front[h].precedence > c.precedence);
                            }
                        },
                        None => {},
                    }
                }
                assert(is_best(all, n, installed, notes, n - 1));
            }
        } else {
            lemma_merged_best(all, m, installed, notes, k);
            let i = choose|i: int| #[trigger]
                is_best(all, m, installed, notes, i) && candidate_of(
                    all[i],
                    all,
                    installed,
                    notes,
                ) == Some(front[k]);
            assert(is_best(all, n, installed, notes, i));
        }
    }
}

/// Every scanner that comes out is the one that a Brother sighting makes, and that sighting
/// is the best of its device's: over eSCL, where any is, and of those as good the first.
pub proof fn law_every_scanner_was_sighted(
    all: Seq<SightingView>,
    installed: InstalledState,
    notes: Map<Seq<char>, ScanToPc>,
    k: int,
)
    requires
        0 <= k < sighted_scanners(all, installed, notes).len(),
    ensures
        exists|i: int| #[trigger]
            is_best(all, all.len(), installed, notes, i) && (candidate_of(
                all[i],
                all,
                installed,
                notes,
            ) matches Some(c) && c.info == sighted_scanners(all, installed, notes)[k]),
{
    let list = merged(all, all.len(), installed, notes);
    lemma_merged_best(all, all.len(), installed, notes, k);
    let i = choose|i: int| #[trigger]
        is_best(all, all.len(), installed, notes, i) && candidate_of(
            all[i],
            all,
            installed,
            notes,
        ) == Some(list[k]);
    assert(is_best(all, all.len(), installed, notes, i));
}

/// What a client sees and what a scan runs against are the same: the device of a scanner is
/// the eSCL sighting it comes from, with the choices it publishes, and a scanner from a
/// vendor sighting has none.
pub proof fn law_the_published_device_is_the_acquired_one(
    s: SightingView,
    installed: InstalledState,
    note: Option<ScanToPcView>,
    scanner: ScannerInfoView,
)
    requires
        scanner.capabilities == capabilities_of(s, installed, note),
    ensures
        device_in(scanner) == (if s.transport.escl() {
            Some(
                EsclDeviceView {
                    device_uri: s.device_uri,
                    resolutions: sighted_capabilities(s).resolutions,
                    color_modes: sighted_capabilities(s).color_modes,
                    sources: sighted_capabilities(s).sources,
                },
            )
        } else {
            None
        }),
{
    let extra = scanner.capabilities.extra;
    let entries = brother_entries(s, installed, note);
    let key = "acquisition_uri"@;
    assert(extra[0] == ("brother"@, ValueView::Dict(entries)));
    assert(dict_get(extra, "brother"@) == Some(ValueView::Dict(entries)));
    lemma_acquisition_entry(s, installed, note);
}

proof fn lemma_with_text(
    entries: Seq<(Seq<char>, ValueView)>,
    name: Seq<char>,
    value: Option<Seq<char>>,
    key: Seq<char>,
)
    requires
        name != key,
    ensures
        dict_get(with_text(entries, name, value), key) == dict_get(entries, key),
{
    match value {
        Some(v) => {
            lemma_dict_push(entries, (name, ValueView::Str(v)), key);
        },
        None => {},
    }
}

proof fn lemma_acquisition_entry(
    s: SightingView,
    installed: InstalledState,
    note: Option<ScanToPcView>,
)
    ensures
        dict_get(brother_entries(s, installed, note), "acquisition_uri"@) == (
        if s.transport.escl() {
            Some(ValueView::Str(s.device_uri))
        } else {
            None
        }),
{
    reveal_strlit("acquisition_uri");
    reveal_strlit("airscan_installed");
    reveal_strlit("device_uri");
    reveal_strlit("model");
    reveal_strlit("physical_address");
    reveal_strlit("scan_to_pc");
    reveal_strlit("scan_to_pc_reason");
    reveal_strlit("stable_hint");
    reveal_strlit("transport");
    let key = "acquisition_uri"@;
    assert(key[1] == 'c');
    assert("airscan_installed"@[1] == 'i');
    assert("device_uri"@[1] == 'e');
    assert("model"@[1] == 'o');
    assert("physical_address"@[1] == 'h');
    assert("scan_to_pc"@.len() != key.len());
    assert("scan_to_pc_reason"@.len() != key.len());
    assert("stable_hint"@[1] == 't');
    assert("transport"@[1] == 'r');
    let uri = if s.transport.escl() {
        Some(s.device_uri)
    } else {
        None
    };
    let none = Seq::<(Seq<char>, ValueView)>::empty();
    let acquired = with_text(none, key, uri);
    if s.transport.escl() {
        lemma_dict_push(none, (key, ValueView::Str(s.device_uri)), key);
    }
    let a = ("airscan_installed"@, ValueView::Bool(installed.airscan == Presence::Present));
    let b = ("device_uri"@, ValueView::Str(s.device_uri));
    lemma_dict_push(acquired, a, key);
    lemma_dict_push(acquired.push(a), b, key);
    let named = acquired.push(a).push(b);
    lemma_with_text(named, "model"@, s.model, key);
    let modelled = with_text(named, "model"@, s.model);
    lemma_with_text(modelled, "physical_address"@, s.address_hint, key);
    let placed = with_text(modelled, "physical_address"@, s.address_hint);
    match note {
        Some(ScanToPcView::Available) => {
            lemma_dict_push(placed, ("scan_to_pc"@, ValueView::Bool(true)), key);
        },
        Some(ScanToPcView::Unavailable { reason }) => {
            let c = ("scan_to_pc"@, ValueView::Bool(false));
            lemma_dict_push(placed, c, key);
            lemma_dict_push(
                placed.push(c),
                ("scan_to_pc_reason"@, ValueView::Str(reason)),
                key,
            );
        },
        None => {},
    }
    let told = with_note(placed, note);
    lemma_with_text(told, "stable_hint"@, s.stable_hint, key);
    let hinted = with_text(told, "stable_hint"@, s.stable_hint);
    lemma_dict_push(hinted, ("transport"@, ValueView::Str(s.transport.name())), key);
}

/// A device that refused loses its panel keys and nothing else that it can do; silence takes
/// nothing away.
pub proof fn law_a_refusal_costs_the_keys_alone(
    s: SightingView,
    installed: InstalledState,
    note: Option<ScanToPcView>,
)
    ensures
        capabilities_of(s, installed, note).resolutions == capabilities_of(
            s,
            installed,
            None,
        ).resolutions,
        capabilities_of(s, installed, note).color_modes == capabilities_of(
            s,
            installed,
            None,
        ).color_modes,
        capabilities_of(s, installed, note).sources == capabilities_of(s, installed, None).sources,
        capabilities_of(s, installed, note).duplex == capabilities_of(s, installed, None).duplex,
        capabilities_of(s, installed, note).buttons == (if note is Some
            && note->Some_0 is Unavailable {
            0
        } else {
            4u32
        }),
{
}

/// What a scanner that a sighting makes can be asked for. Over eSCL: the baseline resolutions,
/// colour and gray, duplex where the description says so, and the paper paths that the
/// description names; the glass, and nothing else, where it names none, so that a feeder is
/// published only where the description says `adf` or `feeder`. Through a vendor backend:
/// nothing. The four keys of the panel stand unless the device refused.
pub proof fn law_a_scanner_offers_what_its_sighting_says(
    s: SightingView,
    all: Seq<SightingView>,
    installed: InstalledState,
    notes: Map<Seq<char>, ScanToPc>,
)
    requires
        candidate_of(s, all, installed, notes) is Some,
    ensures
        ({
            let info = candidate_of(s, all, installed, notes)->Some_0.info;
            let c = info.capabilities;
            let d = lower(s.description);
            let escl = s.transport == Transport::Airscan || s.transport == Transport::Escl;
            let glass = holds(d, "platen"@) || holds(d, "flatbed"@);
            let feeder = holds(d, "adf"@) || holds(d, "feeder"@);
            let refused = notes.dom().contains(info.id) && notes[info.id] is Unavailable;
            &&& escl && !glass && !feeder ==> c.sources =~= seq![Source::Flatbed]
            &&& escl && glass && !feeder ==> c.sources =~= seq![Source::Flatbed]
            &&& escl && !glass && feeder ==> c.sources =~= seq![Source::Adf]
            &&& escl && glass && feeder ==> c.sources =~= seq![Source::Flatbed, Source::Adf]
            &&& escl ==> c.resolutions =~= seq![100u32, 200u32, 300u32, 600u32]
            &&& escl ==> c.color_modes =~= seq![ColorMode::Color, ColorMode::Gray]
            &&& c.duplex <==> escl && holds(d, "duplex"@)
            &&& !escl ==> c.sources.len() == 0 && c.resolutions.len() == 0 && c.color_modes.len()
                == 0
            &&& !c.label_configurable
            &&& refused ==> c.buttons == 0 && c.labels.len() == 0
            &&& !refused ==> c.buttons == 4 && c.labels =~= seq![
                "Scan to File"@,
                "Scan to Image"@,
                "Scan to OCR"@,
                "Scan to E-mail"@,
            ]
        }),
{
}

/// A sighting through a vendor backend gives way to one over eSCL, and nothing but that makes
/// one better than another.
pub proof fn law_only_escl_makes_a_sighting_better(
    s: SightingView,
    t: SightingView,
    all: Seq<SightingView>,
    installed: InstalledState,
    notes: Map<Seq<char>, ScanToPc>,
)
    requires
        candidate_of(s, all, installed, notes) is Some,
        candidate_of(t, all, installed, notes) is Some,
    ensures
        ({
            let a = candidate_of(s, all, installed, notes)->Some_0.precedence;
            let b = candidate_of(t, all, installed, notes)->Some_0.precedence;
            let over = |x: SightingView|
                x.transport == Transport::Airscan || x.transport == Transport::Escl;
            a < b <==> over(s) && !over(t)
        }),
{
}

/// Who a scanner is. It is called by its model, or else by its description; it is reached
/// where its own sighting says, or else where all the eSCL sightings of its model say, or
/// else by its device name; and it is told apart by what its sighting says stays the same, or
/// else by what all those of its model say, or else by its address.
#[verifier::rlimit(40)]
pub proof fn law_a_scanner_is_who_its_sighting_says(
    s: SightingView,
    all: Seq<SightingView>,
    installed: InstalledState,
    notes: Map<Seq<char>, ScanToPc>,
    other: int,
)
    requires
        candidate_of(s, all, installed, notes) is Some,
    ensures
        ({
            let info = candidate_of(s, all, installed, notes)->Some_0.info;
            let telling = |t: SightingView|
                (t.transport == Transport::Airscan || t.transport == Transport::Escl) && of_brother(
                    t,
                ) && t.model_key is Some && t.model_key == s.model_key;
            let by_id = |name: Seq<char>| Some(info.id) == scanner_id("brother"@, name);
            &&& info.backend == "escl:brother"@ && info.status == Status::Online
            &&& s.model matches Some(model) ==> info.name == model
            &&& s.model is None ==> info.name == called(s.description)
            &&& s.address_hint matches Some(hint) ==> info.address == hint
            &&& s.stable_hint matches Some(hint) ==> by_id(hint)
            // Without a hint of its own: what one sighting of the model says counts where no
            // other contradicts it.
            &&& s.address_hint is None && 0 <= other < all.len() && telling(all[other])
                && all[other].address_hint is Some && (forall|j: int|
                0 <= j < all.len() && telling(#[trigger] all[j]) && all[j].address_hint is Some
                    ==> all[j].address_hint == all[other].address_hint) ==> info.address
                == all[other].address_hint->Some_0
            &&& s.stable_hint is None && 0 <= other < all.len() && telling(all[other])
                && all[other].stable_hint is Some && (forall|j: int|
                0 <= j < all.len() && telling(#[trigger] all[j]) && all[j].stable_hint is Some
                    ==> all[j].stable_hint == all[other].stable_hint) ==> by_id(
                all[other].stable_hint->Some_0,
            )
            // Where two of them contradict each other, or none says anything, nothing is taken
            // over.
            &&& s.address_hint is None && ((forall|j: int|
                0 <= j < all.len() && telling(#[trigger] all[j]) ==> all[j].address_hint is None)
                || exists|j: int, k: int|
                0 <= j < all.len() && 0 <= k < all.len() && telling(#[trigger] all[j]) && telling(
                    #[trigger] all[k],
                ) && all[j].address_hint is Some && all[k].address_hint is Some
                    && all[j].address_hint != all[k].address_hint) ==> info.address == s.device_uri
            &&& s.stable_hint is None && ((forall|j: int|
                0 <= j < all.len() && telling(#[trigger] all[j]) ==> all[j].stable_hint is None)
                || exists|j: int, k: int|
                0 <= j < all.len() && 0 <= k < all.len() && telling(#[trigger] all[j]) && telling(
                    #[trigger] all[k],
                ) && all[j].stable_hint is Some && all[k].stable_hint is Some
                    && all[j].stable_hint != all[k].stable_hint) ==> by_id(info.address)
        }),
{
    match s.model_key {
        Some(key) => {
            lemma_address_hints(all, key);
            lemma_stable_hints(all, key);
        },
        None => {},
    }
}

proof fn lemma_address_hints(all: Seq<SightingView>, key: Seq<char>)
    ensures
        forall|i: int|
            0 <= i < all.len() && tells_of(#[trigger] all[i], key) && all[i].address_hint is Some
                ==> address_hints(all, key).contains(all[i].address_hint->Some_0),
        forall|k: int|
            0 <= k < address_hints(all, key).len() ==> exists|i: int|
                0 <= i < all.len() && tells_of(#[trigger] all[i], key) && all[i].address_hint
                    == Some(#[trigger] address_hints(all, key)[k]),
    decreases all.len(),
{
    if all.len() > 0 {
        let front = all.drop_last();
        let hints = address_hints(all, key);
        let before = address_hints(front, key);
        lemma_address_hints(front, key);
        assert forall|i: int|
            0 <= i < all.len() && tells_of(#[trigger] all[i], key) && all[i].address_hint
                is Some implies hints.contains(all[i].address_hint->Some_0) by {
            if i < front.len() {
                assert(front[i] == all[i]);
                let k = choose|k: int|
                    0 <= k < before.len() && before[k] == all[i].address_hint->Some_0;
                assert(hints[k] == before[k]);
            } else {
                assert(hints[hints.len() - 1] == all[i].address_hint->Some_0);
            }
        }
        assert forall|k: int| 0 <= k < hints.len() implies exists|i: int|
            0 <= i < all.len() && tells_of(#[trigger] all[i], key) && all[i].address_hint == Some(
                #[trigger] hints[k],
            ) by {
            if k < before.len() {
                assert(hints[k] == before[k]);
                let i = choose|i: int|
                    0 <= i < front.len() && tells_of(#[trigger] front[i], key)
                        && front[i].address_hint == Some(before[k]);
                assert(all[i] == front[i]);
            } else {
                assert(tells_of(all[all.len() - 1], key));
            }
        }
    }
}

proof fn lemma_stable_hints(all: Seq<SightingView>, key: Seq<char>)
    ensures
        forall|i: int|
            0 <= i < all.len() && tells_of(#[trigger] all[i], key) && all[i].stable_hint is Some
                ==> stable_hints(all, key).contains(all[i].stable_hint->Some_0),
        forall|k: int|
            0 <= k < stable_hints(all, key).len() ==> exists|i: int|
                0 <= i < all.len() && tells_of(#[trigger] all[i], key) && all[i].stable_hint
                    == Some(#[trigger] stable_hints(all, key)[k]),
    decreases all.len(),
{
    if all.len() > 0 {
        let front = all.drop_last();
        let hints = stable_hints(all, key);
        let before = stable_hints(front, key);
        lemma_stable_hints(front, key);
        assert forall|i: int|
            0 <= i < all.len() && tells_of(#[trigger] all[i], key) && all[i].stable_hint
                is Some implies hints.contains(all[i].stable_hint->Some_0) by {
            if i < front.len() {
                assert(front[i] == all[i]);
                let k = choose|k: int|
                    0 <= k < before.len() && before[k] == all[i].stable_hint->Some_0;
                assert(hints[k] == before[k]);
            } else {
                assert(hints[hints.len() - 1] == all[i].stable_hint->Some_0);
            }
        }
        assert forall|k: int| 0 <= k < hints.len() implies exists|i: int|
            0 <= i < all.len() && tells_of(#[trigger] all[i], key) && all[i].stable_hint == Some(
                #[trigger] hints[k],
            ) by {
            if k < before.len() {
                assert(hints[k] == before[k]);
                let i = choose|i: int|
                    0 <= i < front.len() && tells_of(#[trigger] front[i], key)
                        && front[i].stable_hint == Some(before[k]);
                assert(all[i] == front[i]);
            } else {
                assert(tells_of(all[all.len() - 1], key));
            }
        }
    }
}

/// What a scanner publishes beside its capabilities, under each key of the one dictionary that
/// the backend adds: the name to acquire from, over eSCL alone; whether `sane-airscan` can be
/// used; the device's name, model, address, stable name and transport; and what the device
/// said of its panel keys. Under any other key there is nothing.
#[verifier::rlimit(40)]
pub proof fn law_a_scanner_publishes_what_its_sighting_says(
    s: SightingView,
    installed: InstalledState,
    note: Option<ScanToPcView>,
    key: Seq<char>,
)
    ensures
        ({
            let extra = capabilities_of(s, installed, note).extra;
            let escl = s.transport == Transport::Airscan || s.transport == Transport::Escl;
            let said = |v: Option<Seq<char>>| match v {
                Some(x) => Some(ValueView::Str(x)),
                None => None::<ValueView>,
            };
            &&& extra.len() == 1 && extra[0].0 == "brother"@
            &&& extra[0].1 matches ValueView::Dict(inner) && dict_get(inner, key) == (if key
                == "acquisition_uri"@ && escl {
                Some(ValueView::Str(s.device_uri))
            } else if key == "airscan_installed"@ {
                Some(ValueView::Bool(installed.airscan == Presence::Present))
            } else if key == "device_uri"@ {
                Some(ValueView::Str(s.device_uri))
            } else if key == "model"@ && s.model is Some {
                said(s.model)
            } else if key == "physical_address"@ && s.address_hint is Some {
                said(s.address_hint)
            } else if key == "scan_to_pc"@ && note is Some {
                Some(ValueView::Bool(note->Some_0 is Available))
            } else if key == "scan_to_pc_reason"@ && note is Some && note->Some_0 is Unavailable {
                said(Some(note->Some_0->reason))
            } else if key == "stable_hint"@ && s.stable_hint is Some {
                said(s.stable_hint)
            } else if key == "transport"@ {
                Some(
                    ValueView::Str(
                        match s.transport {
                            Transport::Airscan => "airscan"@,
                            Transport::Escl => "escl"@,
                            Transport::Vendor => "vendor"@,
                            Transport::Other => "other"@,
                        },
                    ),
                )
            } else {
                None
            })
        }),
{
    let none = Seq::<(Seq<char>, ValueView)>::empty();
    let uri = if s.transport.escl() {
        Some(s.device_uri)
    } else {
        None
    };
    let a = ("airscan_installed"@, ValueView::Bool(installed.airscan == Presence::Present));
    let b = ("device_uri"@, ValueView::Str(s.device_uri));
    let acquired = with_text(none, "acquisition_uri"@, uri);
    lemma_with_text_found(none, "acquisition_uri"@, uri, key);
    lemma_dict_push(acquired, a, key);
    lemma_dict_push(acquired.push(a), b, key);
    let named = acquired.push(a).push(b);
    lemma_with_text_found(named, "model"@, s.model, key);
    let modelled = with_text(named, "model"@, s.model);
    lemma_with_text_found(modelled, "physical_address"@, s.address_hint, key);
    let placed = with_text(modelled, "physical_address"@, s.address_hint);
    match note {
        Some(ScanToPcView::Available) => {
            lemma_dict_push(placed, ("scan_to_pc"@, ValueView::Bool(true)), key);
        },
        Some(ScanToPcView::Unavailable { reason }) => {
            let c = ("scan_to_pc"@, ValueView::Bool(false));
            lemma_dict_push(placed, c, key);
            lemma_dict_push(
                placed.push(c),
                ("scan_to_pc_reason"@, ValueView::Str(reason)),
                key,
            );
        },
        None => {},
    }
    let told = with_note(placed, note);
    lemma_with_text_found(told, "stable_hint"@, s.stable_hint, key);
    let hinted = with_text(told, "stable_hint"@, s.stable_hint);
    lemma_dict_push(hinted, ("transport"@, ValueView::Str(s.transport.name())), key);
    lemma_keys_differ();
}

proof fn lemma_with_text_found(
    entries: Seq<(Seq<char>, ValueView)>,
    name: Seq<char>,
    value: Option<Seq<char>>,
    key: Seq<char>,
)
    ensures
        dict_get(with_text(entries, name, value), key) == (match dict_get(entries, key) {
            Some(v) => Some(v),
            None => if name == key && value is Some {
                Some(ValueView::Str(value->Some_0))
            } else {
                None
            },
        }),
{
    match value {
        Some(v) => {
            lemma_dict_push(entries, (name, ValueView::Str(v)), key);
        },
        None => {},
    }
}

proof fn lemma_keys_differ()
    ensures
        "scan_to_pc"@ != "scan_to_pc_reason"@,
{
    reveal_strlit("scan_to_pc");
    reveal_strlit("scan_to_pc_reason");
    assert("scan_to_pc"@.len() != "scan_to_pc_reason"@.len());
}

/// Whatever the eSCL sightings of a model agree on is kept for it, the address and the stable
/// name each on its own, and nothing is kept on which they do not agree.
pub proof fn law_what_sightings_agree_on_is_kept(
    m: Map<Seq<char>, Enrichment>,
    all: Seq<SightingView>,
    i: int,
    key: Seq<char>,
)
    requires
        holds_enrichments(m, all),
        0 <= i < all.len() && all[i].model_key == Some(key),
    ensures
        enrichment_of(all, key).address_hint is Some ==> m.dom().contains(key)
            && m[key]@.address_hint == enrichment_of(all, key).address_hint,
        enrichment_of(all, key).stable_hint is Some ==> m.dom().contains(key)
            && m[key]@.stable_hint == enrichment_of(all, key).stable_hint,
        m.dom().contains(key) ==> m[key]@.address_hint is Some || m[key]@.stable_hint is Some,
{
    assert(all[i].model_key matches Some(k) ==> (says_something(enrichment_of(all, k))
        ==> m.dom().contains(k)));
}

/// Several texts say one thing exactly where there are some and they are all alike.
pub proof fn law_only_agreement_counts(hints: Seq<Seq<char>>, hint: Seq<char>, i: int)
    ensures
        unique(hints) == Some(hint) <==> hints.len() > 0 && forall|j: int|
            0 <= j < hints.len() ==> #[trigger] hints[j] == hint,
        hints.len() == 0 ==> unique(hints) is None,
        unique(hints) is Some && 0 <= i < hints.len() ==> unique(hints) == Some(hints[i]),
{
    if hints.len() > 0 {
        if forall|j: int| 0 <= j < hints.len() ==> #[trigger] hints[j] == hint {
            assert(hints[0] == hint);
        }
        if unique(hints) is Some && 0 <= i < hints.len() {
            assert(hints[i] == hints[0]);
        }
    }
}

/// The address that presses come from is the one in the physical address that discovery
/// published, wherever that holds one, and else the one in the scanner's own address; a scanner
/// that is known by names alone has none.
pub proof fn law_the_physical_address_comes_first(scanner: ScannerInfoView, ip: Ipv4Addr)
    ensures
        ({
            let physical = nested_text(
                scanner.capabilities.extra,
                "brother"@,
                "physical_address"@,
            );
            let published = physical is Some && quad_in(physical->Some_0) is Some;
            &&& published && quad_in(physical->Some_0) == Some(ipv4_text(ip)) ==> ipv4_of(scanner)
                == Some(ip)
            &&& !published && quad_in(scanner.address) == Some(ipv4_text(ip)) ==> ipv4_of(scanner)
                == Some(ip)
            &&& !published && quad_in(scanner.address) is None ==> ipv4_of(scanner) is None
        }),
{
    law_address_text_reads_back(ip);
}

/// A scanner can be acquired from exactly where it publishes the name to acquire from, and then
/// from that name, with the choices that it publishes.
pub proof fn law_a_device_is_read_back(scanner: ScannerInfoView)
    ensures
        device_in(scanner) is Some <==> (dict_get(
            scanner.capabilities.extra,
            "brother"@,
        ) matches Some(ValueView::Dict(inner)) && dict_get(
            inner,
            "acquisition_uri"@,
        ) matches Some(ValueView::Str(_))),
        device_in(scanner) matches Some(d) ==> {
            &&& dict_get(scanner.capabilities.extra, "brother"@) matches Some(
                ValueView::Dict(inner),
            ) && dict_get(inner, "acquisition_uri"@) == Some(ValueView::Str(d.device_uri))
            &&& d.resolutions == scanner.capabilities.resolutions
            &&& d.color_modes == scanner.capabilities.color_modes
            &&& d.sources == scanner.capabilities.sources
        },
{
}

} // verus!
