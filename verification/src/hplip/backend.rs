//! The HP backend's decisions: which scanners a probe found, what each of them can do, and
//! whether everything that one needs is installed.
use vstd::prelude::*;
use vstd::slice::slice_subrange;

use crate::hplip::probe::{
    load_models, model_or_default, models_after, no_model_info, parse_probe_output,
    record_views, records_in, ModelInfo, Models, ProbeRecord, ProbeRecordView,
};
use crate::hplip::walkup::{
    find_last_value, first_of, has_none_with, is_last_with, last_value, lemma_last_value,
};
use crate::keyed::Keyed;
use crate::model::{
    backend_error_text, command_output, dict_get, dict_view, exit_description, exit_text, get,
    lemma_dict_push, lemma_dict_value, optional, output_text, put, scanner_id, scanner_views,
    BackendError, BackendErrorView, ButtonsCapability,
    Capabilities, CapabilitiesView, ColorMode, CommandRun, PairingProgress, PairingProgressView, ScannerId,
    ScannerInfo, ScannerInfoView, Source, Status, Value, ValueView, NO_ADDRESS,
};
use crate::text;
use crate::text::{after_prefix, before, drop_trailing, lines, lower, split, split_once, trim};

verus! {

/// Backend identifier.
pub const ID: &'static str = "hplip";

/// The address of the scanner that discovery itself stands for.
pub const DISCOVERY_ID: &'static str = "discovery";

/// The package that holds HPLIP's tools.
pub const HPLIP_PACKAGE: &'static str = "hplip";

/// The package that holds HPLIP's SANE backend.
pub const HPAIO_PACKAGE: &'static str = "libsane-hpaio";

/// What a model that needs HP's plugin cannot do without.
pub const PROPRIETARY_PLUGIN_PACKAGE: &'static str = "hp-plugin";

/// The reasons to need the plugin that have to do with scanning.
pub const HPLIP_SCAN_REASON_MASK: u32 = 0x1c0;

/// The scan type of a model that scans both sides of a sheet.
pub const DUPLEX_SCAN_TYPE: i32 = 6;

// ---------------------------------------------------------------------------- device URIs

/// The section of `models.dat` that a device URI names.
pub open spec fn model_key_of(uri: Seq<char>) -> Option<Seq<char>> {
    match after_prefix(uri, "hp:/"@) {
        None => None,
        Some(rest) => match split_once(rest, '/') {
            None => None,
            Some((_, tail)) => {
                let key = trim(before(tail, '?'));
                if key.len() > 0 {
                    Some(lower(key))
                } else {
                    None
                }
            },
        },
    }
}

/// The section of `models.dat` that a device URI names.
pub fn model_key_from_uri(device_uri: &str) -> (r: Option<String>)
    ensures
        match r {
            Some(k) => model_key_of(device_uri@) == Some(k@),
            None => model_key_of(device_uri@) is None,
        },
{
    let rest = match text::strip_prefix(device_uri, "hp:/") {
        Some(rest) => text::chars(rest),
        None => {
            return None;
        },
    };
    let tail = match text::halves(rest.as_slice(), '/') {
        Some((_, tail)) => tail,
        None => {
            return None;
        },
    };
    let at: usize = text::position(tail, '?');
    let front = slice_subrange(tail, 0, at);
    assert(front@ =~= before(tail@, '?'));
    let key = text::trimmed(front);
    if key.len() == 0 {
        None
    } else {
        Some(text::from_chars(text::lowered(key).as_slice()))
    }
}

/// Whether every piece of a query is a key and a value.
pub open spec fn all_pairs(pieces: Seq<Seq<char>>) -> bool {
    forall|i: int| 0 <= i < pieces.len() ==> split_once(#[trigger] pieces[i], '=') is Some
}

/// A value without trailing dots.
pub open spec fn undotted(v: Option<Seq<char>>) -> Option<Seq<char>> {
    match v {
        Some(s) => Some(drop_trailing(s, '.')),
        None => None,
    }
}

/// The address that the query of a device URI says: the host of a device on the network,
/// the serial number or else the device node of one on USB. There is none where a piece of
/// the query is no pair.
pub open spec fn physical_address(uri: Seq<char>) -> Option<Seq<char>> {
    match split_once(uri, '?') {
        None => None,
        Some((_, query)) => {
            let pairs = split(query, '&');
            if !all_pairs(pairs) {
                None
            } else {
                match first_of(
                    last_value(pairs, "ip"@),
                    undotted(last_value(pairs, "hostname"@)),
                    undotted(last_value(pairs, "zc"@)),
                ) {
                    Some(host) => Some(lower(host)),
                    None => if last_value(pairs, "bus"@) == Some("usb"@) {
                        match last_value(pairs, "serial"@) {
                            Some(serial) => Some(serial),
                            None => last_value(pairs, "device"@),
                        }
                    } else {
                        None
                    },
                }
            }
        },
    }
}

fn are_pairs(pieces: &Vec<Vec<char>>) -> (r: bool)
    ensures
        r == all_pairs(text::all_views(pieces@)),
{
    let ghost all = text::all_views(pieces@);
    let mut i: usize = 0;
    while i < pieces.len()
        invariant
            i <= pieces@.len(),
            all == text::all_views(pieces@),
            forall|j: int| 0 <= j < i ==> split_once(#[trigger] all[j], '=') is Some,
        decreases pieces@.len() - i,
    {
        assert(all[i as int] == pieces@[i as int]@);
        if text::halves(pieces[i].as_slice(), '=').is_none() {
            assert(split_once(all[i as int], '=') is None);
            return false;
        }
        i = i + 1;
    }
    true
}

fn without_dots(v: Option<String>) -> (r: Option<String>)
    ensures
        match v {
            Some(s) => r matches Some(x) && x@ == drop_trailing(s@, '.'),
            None => r is None,
        },
{
    match v {
        Some(s) => {
            let c = text::chars(s.as_str());
            Some(text::from_chars(text::without_trailing(c.as_slice(), '.')))
        },
        None => None,
    }
}

/// The address that a device URI says.
pub fn physical_address_from_uri(device_uri: &str) -> (r: Option<String>)
    ensures
        match r {
            Some(a) => physical_address(device_uri@) == Some(a@),
            None => physical_address(device_uri@) is None,
        },
{
    let uri = text::chars(device_uri);
    let query = match text::halves(uri.as_slice(), '?') {
        Some((_, query)) => query,
        None => {
            return None;
        },
    };
    let pairs = text::pieces(query, '&');
    if !are_pairs(&pairs) {
        return None;
    }
    let ip = find_last_value(&pairs, "ip");
    let hostname = without_dots(find_last_value(&pairs, "hostname"));
    let zc = without_dots(find_last_value(&pairs, "zc"));
    match (ip, hostname, zc) {
        (Some(host), _, _) => {
            return Some(text::lower_text(host.as_str()));
        },
        (None, Some(host), _) => {
            return Some(text::lower_text(host.as_str()));
        },
        (None, None, Some(host)) => {
            return Some(text::lower_text(host.as_str()));
        },
        (None, None, None) => {},
    }
    match find_last_value(&pairs, "bus") {
        Some(bus) => if text::same(bus.as_str(), "usb") {
            match find_last_value(&pairs, "serial") {
                Some(serial) => Some(serial),
                None => find_last_value(&pairs, "device"),
            }
        } else {
            None
        },
        None => None,
    }
}

// -------------------------------------------------------------------------- capabilities

/// The paper paths that a model's `scan-src` says.
pub open spec fn paper_paths(scan_src: u32) -> Seq<Source> {
    let flatbed = if scan_src & 1 != 0 {
        seq![Source::Flatbed]
    } else {
        seq![]
    };
    if scan_src & 2 != 0 {
        flatbed.push(Source::Adf)
    } else {
        flatbed
    }
}

/// The paper paths that a model's `scan-src` says.
pub fn sources_from_scan_src(scan_src: u32) -> (r: Vec<Source>)
    ensures
        r@ == paper_paths(scan_src),
{
    let mut sources: Vec<Source> = Vec::new();
    if scan_src & 0x1 != 0 {
        sources.push(Source::Flatbed);
    }
    assert(sources@ =~= if scan_src & 1 != 0 {
        seq![Source::Flatbed]
    } else {
        seq![]
    });
    if scan_src & 0x2 != 0 {
        sources.push(Source::Adf);
    }
    sources
}

/// Whether a model needs HP's proprietary plugin to scan.
pub open spec fn needs_plugin(model: ModelInfo) -> bool {
    model.plugin > 0 || model.plugin_reason & HPLIP_SCAN_REASON_MASK != 0
}

/// Whether a model needs HP's proprietary plugin to scan.
pub fn model_requires_plugin(model: &ModelInfo) -> (r: bool)
    ensures
        r == needs_plugin(*model),
{
    model.plugin > 0 || model.plugin_reason & HPLIP_SCAN_REASON_MASK != 0
}

/// What the backend adds to a scanner's capabilities, by key in order.
pub open spec fn hplip_entries(
    record: ProbeRecordView,
    key: Option<Seq<char>>,
    model: ModelInfo,
) -> Seq<(Seq<char>, ValueView)> {
    let uri = seq![("device_uri"@, ValueView::Str(record.device_uri))];
    let named = match key {
        Some(k) => uri.push(("model_key"@, ValueView::Str(k))),
        None => uri,
    };
    named.push(("model_name"@, ValueView::Str(record.model_name))).push(
        ("plugin_reason"@, ValueView::U64(model.plugin_reason as u64)),
    ).push(("plugin_required"@, ValueView::Bool(needs_plugin(model)))).push(
        ("scan_src"@, ValueView::U64(model.scan_src as u64)),
    ).push(("scan_type"@, ValueView::I64(model.scan_type as i64)))
}

/// What a model of which a probe's record and `models.dat` speak can do.
pub open spec fn model_capabilities(
    record: ProbeRecordView,
    key: Option<Seq<char>>,
    model: ModelInfo,
) -> CapabilitiesView {
    CapabilitiesView {
        resolutions: seq![],
        color_modes: seq![],
        sources: paper_paths(model.scan_src),
        duplex: model.scan_type == DUPLEX_SCAN_TYPE,
        buttons: 0,
        label_configurable: false,
        labels: seq![],
        extra: seq![("hplip"@, ValueView::Dict(hplip_entries(record, key, model)))],
    }
}

/// What a model of which a probe's record and `models.dat` speak can do.
pub fn capabilities_from_model(
    record: &ProbeRecord,
    model_key: &Option<String>,
    model: &ModelInfo,
) -> (r: Capabilities)
    ensures
        r@ == model_capabilities(record@, optional(*model_key), *model),
{
    let mut inner: Vec<(String, Value)> = Vec::new();
    assert(dict_view(inner@) =~= seq![]);
    put(&mut inner, "device_uri", Value::Str(record.device_uri.clone()));
    assert(dict_view(inner@) =~= seq![("device_uri"@, ValueView::Str(record@.device_uri))]);
    match model_key {
        Some(key) => {
            put(&mut inner, "model_key", Value::Str(key.clone()));
        },
        None => {},
    }
    put(&mut inner, "model_name", Value::Str(record.model_name.clone()));
    put(&mut inner, "plugin_reason", Value::U64(model.plugin_reason as u64));
    put(&mut inner, "plugin_required", Value::Bool(model_requires_plugin(model)));
    put(&mut inner, "scan_src", Value::U64(model.scan_src as u64));
    put(&mut inner, "scan_type", Value::I64(model.scan_type as i64));
    proof {
        lemma_dict_value(inner);
    }
    let mut extra: Vec<(String, Value)> = Vec::new();
    assert(dict_view(extra@) =~= seq![]);
    put(&mut extra, "hplip", Value::Dict(inner));
    let out = Capabilities {
        resolutions: Vec::new(),
        color_modes: Vec::new(),
        sources: sources_from_scan_src(model.scan_src),
        duplex: model.scan_type == DUPLEX_SCAN_TYPE,
        buttons: ButtonsCapability { count: 0, label_configurable: false, labels: Vec::new() },
        extra,
    };
    proof {
        assert(out@.resolutions =~= Seq::<u32>::empty());
        assert(out@.color_modes =~= Seq::<ColorMode>::empty());
        assert(out@.labels =~= Seq::<Seq<char>>::empty());
        assert(out@.extra =~= model_capabilities(record@, optional(*model_key), *model).extra);
    }
    out
}

/// Whether a scanner's capabilities say that it needs HP's plugin.
pub open spec fn says_plugin(extra: Seq<(Seq<char>, ValueView)>) -> bool {
    match dict_get(extra, "hplip"@) {
        Some(ValueView::Dict(inner)) => match dict_get(inner, "plugin_required"@) {
            Some(ValueView::Bool(b)) => b,
            _ => false,
        },
        _ => false,
    }
}

/// Whether a scanner's capabilities say that it needs HP's plugin.
pub fn requires_plugin(scanner: &ScannerInfo) -> (r: bool)
    ensures
        r == says_plugin(scanner@.capabilities.extra),
{
    match get(&scanner.capabilities.extra, "hplip") {
        Some(Value::Dict(inner)) => {
            proof {
                lemma_dict_value(*inner);
            }
            match get(inner, "plugin_required") {
                Some(Value::Bool(b)) => *b,
                _ => false,
            }
        },
        _ => false,
    }
}

// ------------------------------------------------------------------------------ scanners

/// The address of a device that a probe found.
pub open spec fn address_of(uri: Seq<char>) -> Seq<char> {
    match physical_address(uri) {
        Some(a) => a,
        None => uri,
    }
}

/// What `models.dat` says of a device that a probe found.
pub open spec fn info_of(uri: Seq<char>, models: Map<Seq<char>, ModelInfo>) -> ModelInfo {
    match model_key_of(uri) {
        Some(key) => model_or_default(models, key),
        None => no_model_info(),
    }
}

/// The scanner that a device of a probe's table is; none where its address names none.
pub open spec fn probed_scanner(
    record: ProbeRecordView,
    models: Map<Seq<char>, ModelInfo>,
) -> Option<ScannerInfoView> {
    let address = address_of(record.device_uri);
    match scanner_id(ID@, address) {
        None => None,
        Some(id) => Some(
            ScannerInfoView {
                id,
                name: record.display_name,
                backend: ID@,
                address,
                capabilities: model_capabilities(
                    record,
                    model_key_of(record.device_uri),
                    info_of(record.device_uri, models),
                ),
                status: Status::Online,
            },
        ),
    }
}

/// The scanner that a device of a probe's table is.
pub fn scanner_from_probe(record: ProbeRecord, models: &Models) -> (r: Result<
    ScannerInfo,
    BackendError,
>)
    ensures
        match probed_scanner(record@, models@) {
            Some(s) => r matches Ok(x) && x@ == s,
            None => r matches Err(e) && e@ == BackendErrorView::Other(NO_ADDRESS@),
        },
{
    let model_key = model_key_from_uri(record.device_uri.as_str());
    let model_info = match &model_key {
        Some(key) => match models.get(key.as_str()) {
            Some(info) => *info,
            None => ModelInfo::default(),
        },
        None => ModelInfo::default(),
    };
    let address = match physical_address_from_uri(record.device_uri.as_str()) {
        Some(address) => address,
        None => record.device_uri.clone(),
    };
    let id = match ScannerId::from_backend(ID, address.as_str()) {
        Ok(id) => id,
        Err(error) => {
            return Err(BackendError::Other(error));
        },
    };
    let capabilities = capabilities_from_model(&record, &model_key, &model_info);
    Ok(
        ScannerInfo {
            id,
            name: record.display_name,
            backend: ID.to_owned(),
            address,
            capabilities,
            status: Status::Online,
        },
    )
}

/// Whether every device of a probe's table has an address that names a scanner.
pub open spec fn all_addressed(
    records: Seq<ProbeRecordView>,
    models: Map<Seq<char>, ModelInfo>,
) -> bool {
    forall|i: int| 0 <= i < records.len() ==> probed_scanner(#[trigger] records[i], models) is Some
}

/// The scanners that the devices of a probe's table are.
pub open spec fn probed_scanners(
    records: Seq<ProbeRecordView>,
    models: Map<Seq<char>, ModelInfo>,
) -> Seq<ScannerInfoView> {
    Seq::new(records.len(), |i: int| probed_scanner(records[i], models)->Some_0)
}

fn scanners_from_records(records: Vec<ProbeRecord>, models: &Models) -> (r: Result<
    Vec<ScannerInfo>,
    BackendError,
>)
    ensures
        match r {
            Ok(v) => all_addressed(record_views(records@), models@) && scanner_views(v@)
                == probed_scanners(record_views(records@), models@),
            Err(e) => !all_addressed(record_views(records@), models@) && e@
                == BackendErrorView::Other(NO_ADDRESS@),
        },
{
    let ghost all = record_views(records@);
    let mut out: Vec<ScannerInfo> = Vec::new();
    let mut i: usize = 0;
    while i < records.len()
        invariant
            i <= records@.len(),
            all == record_views(records@),
            out@.len() == i,
            forall|j: int|
                0 <= j < i ==> probed_scanner(#[trigger] all[j], models@) == Some(out@[j]@),
        decreases records@.len() - i,
    {
        assert(all[i as int] == records@[i as int]@);
        let record = ProbeRecord {
            device_uri: records[i].device_uri.clone(),
            model_name: records[i].model_name.clone(),
            display_name: records[i].display_name.clone(),
        };
        assert(record@ == all[i as int]);
        match scanner_from_probe(record, models) {
            Ok(scanner) => {
                out.push(scanner);
            },
            Err(error) => {
                assert(probed_scanner(all[i as int], models@) is None);
                return Err(error);
            },
        }
        i = i + 1;
    }
    assert(scanner_views(out@) =~= probed_scanners(all, models@));
    Ok(out)
}

// ------------------------------------------------------------------------------- backend

/// What came of asking whether a package is installed.
#[derive(Debug)]
pub enum PackageQuery {
    /// There is no `dpkg-query`; whether one of the files that tell is there.
    NoTool { file_present: bool },
    /// It was run.
    Asked(CommandRun),
}

/// Whether a package is there.
#[derive(Debug, Clone, Copy, PartialEq, Eq)]
pub struct DependencyState {
    pub package: &'static str,
    pub installed: bool,
}

/// Walk-up HP backend backed by `hp-probe` and HPLIP's model database.
#[derive(Debug, Clone)]
pub struct HplipBackend {
    pub hp_probe_path: String,
    pub dpkg_query_path: String,
    pub models_dat_path: String,
}

impl Default for HplipBackend {
    fn default() -> (r: Self)
        ensures
            r.hp_probe_path@ == "/usr/bin/hp-probe"@,
            r.dpkg_query_path@ == "/usr/bin/dpkg-query"@,
            r.models_dat_path@ == "/usr/share/hplip/data/models/models.dat"@,
    {
        HplipBackend {
            hp_probe_path: "/usr/bin/hp-probe".to_owned(),
            dpkg_query_path: "/usr/bin/dpkg-query".to_owned(),
            models_dat_path: "/usr/share/hplip/data/models/models.dat".to_owned(),
        }
    }
}

/// The content of a file that may not be readable, as far as it is.
pub open spec fn content_of(content: Option<String>) -> Map<Seq<char>, ModelInfo> {
    match content {
        Some(c) => models_after(lines(c@)).models,
        None => Map::empty(),
    }
}

/// The error that discovery ends with when the probe itself failed.
pub open spec fn probe_failure(detail: Seq<char>) -> BackendErrorView {
    BackendErrorView::NotReachable { scanner: scanner_id(ID@, DISCOVERY_ID@)->Some_0, detail }
}

/// What discovery finds, or the error it ends with.
pub open spec fn discovered(run: Option<CommandRun>, models: Map<Seq<char>, ModelInfo>) -> Result<
    Seq<ScannerInfoView>,
    BackendErrorView,
> {
    match run {
        None => Ok(seq![]),
        Some(CommandRun::NotRun(reason)) => Err(probe_failure("failed to run hp-probe: "@ + reason@)),
        Some(CommandRun::Exited { success, code, stdout, stderr }) => if !success {
            Err(
                probe_failure(
                    "hp-probe failed with "@ + exit_text(code) + ": "@ + output_text(
                        text::lossy(stdout@),
                        text::lossy(stderr@),
                    ),
                ),
            )
        } else {
            let records = records_in(lines(text::lossy(stdout@)));
            if all_addressed(records, models) {
                Ok(probed_scanners(records, models))
            } else {
                Err(BackendErrorView::Other(NO_ADDRESS@))
            }
        },
    }
}

/// The scanners that the text of a probe's output lists.
pub fn scanners_in_output(output: &str, models: &Models) -> (r: Result<
    Vec<ScannerInfo>,
    BackendError,
>)
    ensures
        match r {
            Ok(v) => all_addressed(records_in(lines(output@)), models@) && scanner_views(v@)
                == probed_scanners(records_in(lines(output@)), models@),
            Err(e) => !all_addressed(records_in(lines(output@)), models@) && e@
                == BackendErrorView::Other(NO_ADDRESS@),
        },
{
    scanners_from_records(parse_probe_output(output), models)
}

/// What is said of a package that is missing.
pub open spec fn missing_package(package: Seq<char>) -> BackendErrorView {
    BackendErrorView::InstallFailed {
        package,
        detail: package
            + " is not installed; install it with your distribution package manager"@,
    }
}

/// What is said of a scanner that needs HP's plugin.
pub const PLUGIN_DETAIL: &'static str = "this model requires HP's proprietary plugin for scanning; install it explicitly if you want to use this backend";

/// Whether a package is installed, or why that could not be asked.
pub open spec fn installed(package: Seq<char>, query: PackageQuery) -> Result<bool, Seq<char>> {
    match query {
        PackageQuery::NoTool { file_present } => Ok(file_present),
        PackageQuery::Asked(CommandRun::NotRun(reason)) => Err(
            "failed to run dpkg-query for "@ + package + ": "@ + reason@,
        ),
        PackageQuery::Asked(CommandRun::Exited { success, stdout, .. }) => Ok(
            success && trim(text::lossy(stdout@)) == "installed"@,
        ),
    }
}

/// What stands between a scanner and its use, if anything does.
pub open spec fn install_obstacle(
    scanner: ScannerInfoView,
    hplip: PackageQuery,
    hpaio: PackageQuery,
) -> Option<BackendErrorView> {
    match (installed(HPLIP_PACKAGE@, hplip), installed(HPAIO_PACKAGE@, hpaio)) {
        (Err(e), _) => Some(BackendErrorView::Other(e)),
        (Ok(_), Err(e)) => Some(BackendErrorView::Other(e)),
        (Ok(first), Ok(second)) => if !first {
            Some(missing_package(HPLIP_PACKAGE@))
        } else if !second {
            Some(missing_package(HPAIO_PACKAGE@))
        } else if says_plugin(scanner.capabilities.extra) {
            Some(
                BackendErrorView::InstallFailed {
                    package: PROPRIETARY_PLUGIN_PACKAGE@,
                    detail: PLUGIN_DETAIL@,
                },
            )
        } else {
            None
        },
    }
}

/// Whether what `dpkg-query` printed says that a package is installed.
pub fn says_installed(stdout: &str) -> (r: bool)
    ensures
        r == (trim(stdout@) == "installed"@),
{
    text::same(text::trim_text(stdout).as_str(), "installed")
}

/// Whether a package is installed.
pub fn package_installed(package: &'static str, query: &PackageQuery) -> (r: Result<
    bool,
    BackendError,
>)
    ensures
        match installed(package@, *query) {
            Ok(b) => r matches Ok(x) && x == b,
            Err(e) => r matches Err(x) && x@ == BackendErrorView::Other(e),
        },
{
    match query {
        PackageQuery::NoTool { file_present } => Ok(*file_present),
        PackageQuery::Asked(CommandRun::NotRun(reason)) => {
            let mut out = "failed to run dpkg-query for ".to_owned();
            out.append(package);
            out.append(": ");
            out.append(reason.as_str());
            Err(BackendError::Other(out))
        },
        PackageQuery::Asked(CommandRun::Exited { success, stdout, .. }) => if *success {
            Ok(says_installed(text::lossy_text(stdout.as_slice()).as_str()))
        } else {
            Ok(false)
        },
    }
}

/// Whether the packages that the backend needs are there, in the order they are asked for.
pub fn dependency_states(hplip: &PackageQuery, hpaio: &PackageQuery) -> (r: Result<
    Vec<DependencyState>,
    BackendError,
>)
    ensures
        match (installed(HPLIP_PACKAGE@, *hplip), installed(HPAIO_PACKAGE@, *hpaio)) {
            (Err(e), _) => r matches Err(x) && x@ == BackendErrorView::Other(e),
            (Ok(_), Err(e)) => r matches Err(x) && x@ == BackendErrorView::Other(e),
            (Ok(first), Ok(second)) => r matches Ok(v) && v@.len() == 2 && v@[0].package
                == HPLIP_PACKAGE && v@[0].installed == first && v@[1].package == HPAIO_PACKAGE
                && v@[1].installed == second,
        },
{
    let first = match package_installed(HPLIP_PACKAGE, hplip) {
        Ok(b) => b,
        Err(error) => {
            return Err(error);
        },
    };
    let second = match package_installed(HPAIO_PACKAGE, hpaio) {
        Ok(b) => b,
        Err(error) => {
            return Err(error);
        },
    };
    let mut out: Vec<DependencyState> = Vec::new();
    out.push(DependencyState { package: HPLIP_PACKAGE, installed: first });
    out.push(DependencyState { package: HPAIO_PACKAGE, installed: second });
    Ok(out)
}

/// The files that tell, where there is no `dpkg-query`, that a package is there.
pub fn fallback_paths(package: &str) -> (r: Vec<&'static str>)
    ensures
        package@ == HPLIP_PACKAGE@ ==> r@ == seq!["/usr/bin/hp-probe"],
        package@ == HPAIO_PACKAGE@ && package@ != HPLIP_PACKAGE@ ==> r@ == seq![
            "/usr/lib/x86_64-linux-gnu/sane/libsane-hpaio.so.1",
            "/usr/lib64/sane/libsane-hpaio.so.1",
            "/usr/lib/sane/libsane-hpaio.so.1",
        ],
        package@ != HPLIP_PACKAGE@ && package@ != HPAIO_PACKAGE@ ==> r@.len() == 0,
{
    let mut out: Vec<&'static str> = Vec::new();
    if text::same(package, HPLIP_PACKAGE) {
        out.push("/usr/bin/hp-probe");
        assert(out@ =~= seq!["/usr/bin/hp-probe"]);
    } else if text::same(package, HPAIO_PACKAGE) {
        out.push("/usr/lib/x86_64-linux-gnu/sane/libsane-hpaio.so.1");
        out.push("/usr/lib64/sane/libsane-hpaio.so.1");
        out.push("/usr/lib/sane/libsane-hpaio.so.1");
        assert(out@ =~= seq![
            "/usr/lib/x86_64-linux-gnu/sane/libsane-hpaio.so.1",
            "/usr/lib64/sane/libsane-hpaio.so.1",
            "/usr/lib/sane/libsane-hpaio.so.1",
        ]);
    }
    out
}

impl HplipBackend {
    /// The backend's identifier.
    pub fn id(&self) -> (r: &'static str)
        ensures
            r@ == ID@,
    {
        ID
    }

    /// The scanner that discovery itself stands for.
    pub fn discovery_scanner() -> (r: ScannerId)
        ensures
            scanner_id(ID@, DISCOVERY_ID@) == Some(r@),
    {
        proof {
            reveal_strlit("discovery");
        }
        ScannerId::from_backend(ID, DISCOVERY_ID).unwrap()
    }

    /// The arguments `hp-probe` is run with.
    pub fn probe_arguments(&self) -> (r: Vec<&'static str>)
        ensures
            r@ == seq![
                "--bus=net,usb",
                "--filter=scan",
                "--timeout=5",
                "--ttl=4",
                "--logging=info",
            ],
    {
        let out: Vec<&'static str> =
            vec![
            "--bus=net,usb",
            "--filter=scan",
            "--timeout=5",
            "--ttl=4",
            "--logging=info",
        ];
        assert(out@ =~= seq![
            "--bus=net,usb",
            "--filter=scan",
            "--timeout=5",
            "--ttl=4",
            "--logging=info",
        ]);
        out
    }

    /// The arguments `dpkg-query` is run with.
    pub fn query_arguments(&self, package: &'static str) -> (r: Vec<&'static str>)
        ensures
            r@ == seq!["-W", "-f=${db:Status-Status}\\n", package],
    {
        let out: Vec<&'static str> = vec!["-W", "-f=${db:Status-Status}\\n", package];
        assert(out@ =~= seq!["-W", "-f=${db:Status-Status}\\n", package]);
        out
    }

    /// What discovery finds, from what came of running `hp-probe` (nothing where there is no
    /// such tool) and from the content of `models.dat`, where that could be read. Without it
    /// discovery goes on.
    pub fn discover_once(&self, run: Option<CommandRun>, models: Option<String>) -> (r: Result<
        Vec<ScannerInfo>,
        BackendError,
    >)
        ensures
            match discovered(run, content_of(models)) {
                Ok(found) => r matches Ok(v) && scanner_views(v@) == found,
                Err(e) => r matches Err(x) && x@ == e,
            },
    {
        match run {
            None => {
                let none: Vec<ScannerInfo> = Vec::new();
                assert(scanner_views(none@) =~= seq![]);
                Ok(none)
            },
            Some(CommandRun::NotRun(reason)) => {
                let mut detail = "failed to run hp-probe: ".to_owned();
                detail.append(reason.as_str());
                Err(
                    BackendError::NotReachable {
                        scanner: HplipBackend::discovery_scanner(),
                        detail,
                    },
                )
            },
            Some(CommandRun::Exited { success, code, stdout, stderr }) => {
                if !success {
                    let mut detail = "hp-probe failed with ".to_owned();
                    detail.append(exit_description(code).as_str());
                    detail.append(": ");
                    detail.append(
                        command_output(stdout.as_slice(), stderr.as_slice()).as_str(),
                    );
                    return Err(
                        BackendError::NotReachable {
                            scanner: HplipBackend::discovery_scanner(),
                            detail,
                        },
                    );
                }
                let known = match models {
                    Some(content) => load_models(content.as_str()),
                    None => Keyed::new(),
                };
                scanners_in_output(text::lossy_text(stdout.as_slice()).as_str(), &known)
            },
        }
    }

    /// Whether everything a scanner needs is there, from what came of asking for the two
    /// packages.
    pub fn ensure_installed_once(
        &self,
        scanner: &ScannerInfo,
        hplip: &PackageQuery,
        hpaio: &PackageQuery,
    ) -> (r: Result<(), BackendError>)
        ensures
            match install_obstacle(scanner@, *hplip, *hpaio) {
                Some(e) => r matches Err(x) && x@ == e,
                None => r is Ok,
            },
    {
        let states = match dependency_states(hplip, hpaio) {
            Ok(states) => states,
            Err(error) => {
                return Err(error);
            },
        };
        let mut i: usize = 0;
        while i < states.len()
            invariant
                i <= states@.len(),
                forall|j: int| 0 <= j < i ==> (#[trigger] states@[j]).installed,
            ensures
                i < states@.len() ==> !states@[i as int].installed,
            decreases states@.len() - i,
        {
            if !states[i].installed {
                break ;
            }
            i = i + 1;
        }
        if i < states.len() {
            let package = states[i].package;
            let mut detail = package.to_owned();
            detail.append(
                " is not installed; install it with your distribution package manager",
            );
            return Err(BackendError::InstallFailed { package: package.to_owned(), detail });
        }
        if requires_plugin(scanner) {
            return Err(
                BackendError::InstallFailed {
                    package: PROPRIETARY_PLUGIN_PACKAGE.to_owned(),
                    detail: PLUGIN_DETAIL.to_owned(),
                },
            );
        }
        Ok(())
    }

    /// What is reported when a scanner's needs begin to be checked.
    pub fn checking(&self, scanner: &ScannerInfo) -> (r: PairingProgress)
        ensures
            r@ == (PairingProgressView::Checking {
                message: "checking HPLIP dependencies for "@ + scanner@.name,
            }),
    {
        let mut message = "checking HPLIP dependencies for ".to_owned();
        message.append(scanner.name.as_str());
        PairingProgress::Checking { message }
    }

    /// What is reported when a scanner's needs have been checked, and what the check says.
    pub fn ensure_installed(
        &self,
        scanner: &ScannerInfo,
        hplip: &PackageQuery,
        hpaio: &PackageQuery,
    ) -> (r: (PairingProgress, Result<(), BackendError>))
        ensures
            match install_obstacle(scanner@, *hplip, *hpaio) {
                Some(e) => r.1 matches Err(x) && x@ == e && r.0@ == (PairingProgressView::Failed {
                    message: backend_error_text(e),
                }),
                None => r.1 is Ok && r.0@ == PairingProgressView::Ready,
            },
    {
        match self.ensure_installed_once(scanner, hplip, hpaio) {
            Ok(()) => (PairingProgress::Ready, Ok(())),
            Err(error) => (PairingProgress::Failed { message: error.to_text() }, Err(error)),
        }
    }

    /// Keys cannot be mapped.
    pub fn set_button_mapping(&self) -> (r: Result<(), BackendError>)
        ensures
            r matches Err(e) && e@ == (BackendErrorView::Unsupported {
                backend: ID@,
                operation: "set_button_mapping"@,
            }),
    {
        Err(BackendError::Unsupported { backend: ID, operation: "set_button_mapping" })
    }

    /// No press has pages.
    pub fn fetch_pages(&self, scanner_id: &ScannerId, trigger_id: &str) -> (r: Result<
        (),
        BackendError,
    >)
        ensures
            r matches Err(e) && e@ == (BackendErrorView::UnknownJob {
                scanner: scanner_id@,
                job: trigger_id@,
            }),
    {
        Err(BackendError::UnknownJob { scanner: scanner_id.clone(), job: trigger_id.to_owned() })
    }
}

// ---------------------------------------------------------------------------------- laws

/// What discovery says of the plugin is what the install check reads back: a scanner that a
/// probe found needs the plugin exactly where `models.dat` says that its model does.
pub proof fn law_plugin_need_reads_back(
    record: ProbeRecordView,
    models: Map<Seq<char>, ModelInfo>,
)
    requires
        probed_scanner(record, models) is Some,
    ensures
        says_plugin(probed_scanner(record, models)->Some_0.capabilities.extra) == needs_plugin(
            info_of(record.device_uri, models),
        ),
{
    reveal_strlit("device_uri");
    reveal_strlit("model_key");
    reveal_strlit("model_name");
    reveal_strlit("plugin_reason");
    reveal_strlit("plugin_required");
    let s = probed_scanner(record, models)->Some_0;
    let key = model_key_of(record.device_uri);
    let entries = hplip_entries(record, key, info_of(record.device_uri, models));
    reveal_with_fuel(dict_get, 6);
    assert("device_uri"@[0] != "plugin_required"@[0]);
    assert("model_key"@[0] != "plugin_required"@[0]);
    assert("model_name"@[0] != "plugin_required"@[0]);
    assert("plugin_reason"@.len() != "plugin_required"@.len());
    assert(s.capabilities.extra[0] == ("hplip"@, ValueView::Dict(entries)));
    let e1 = entries.drop_first();
    let e2 = e1.drop_first();
    let e3 = e2.drop_first();
    let e4 = e3.drop_first();
    assert(dict_get(entries, "plugin_required"@) == Some(
        ValueView::Bool(needs_plugin(info_of(record.device_uri, models))),
    ));
}

/// The model that a device URI names: what stands between the bus and the query, in small
/// letters and without white space around it; none where nothing does, or where the URI is not
/// HPLIP's.
pub proof fn law_a_device_uri_names_its_model(
    bus: Seq<char>,
    model: Seq<char>,
    query: Seq<char>,
    other: Seq<char>,
)
    requires
        !bus.contains('/'),
        !model.contains('?'),
        !text::begins(other, "hp:/"@),
    ensures
        trim(model).len() > 0 ==> model_key_of("hp:/"@ + bus + seq!['/'] + model) == Some(
            lower(trim(model)),
        ) && model_key_of("hp:/"@ + bus + seq!['/'] + model + seq!['?'] + query) == Some(
            lower(trim(model)),
        ),
        trim(model).len() == 0 ==> model_key_of("hp:/"@ + bus + seq!['/'] + model + seq!['?']
            + query) is None,
        model_key_of("hp:/"@ + bus) is None,
        model_key_of(other) is None,
{
    reveal_strlit("hp:/");
    let long = model + seq!['?'] + query;
    let a = "hp:/"@ + bus + seq!['/'] + model;
    let b = "hp:/"@ + bus + seq!['/'] + model + seq!['?'] + query;
    let c = "hp:/"@ + bus;
    assert(a.take(4) =~= "hp:/"@ && b.take(4) =~= "hp:/"@ && c.take(4) =~= "hp:/"@);
    assert(a.skip(4) =~= bus + seq!['/'] + model);
    assert(b.skip(4) =~= bus + seq!['/'] + long);
    assert(c.skip(4) =~= bus);
    text::lemma_split_first(bus, '/', model);
    text::lemma_split_first(bus, '/', long);
    text::lemma_split_none(bus, '/');
    assert(a.skip(4).skip(bus.len() as int + 1) =~= model);
    assert(b.skip(4).skip(bus.len() as int + 1) =~= long);
    text::lemma_split_none(model, '?');
    text::lemma_split_first(model, '?', query);
    assert(before(model, '?') =~= model);
    assert(before(long, '?') =~= model);
}

/// Where a device is, by the query of its URI. On the network it is at its `ip`, else at its
/// `hostname`, else at its `zc`, the last of each that is given, in small letters, a name
/// without the dots behind it. On USB, and only there, it is its `serial`, else its `device`.
/// A URI without a query says nothing.
#[verifier::rlimit(40)]
pub proof fn law_a_device_uri_says_where_the_device_is(
    base: Seq<char>,
    pairs: Seq<(Seq<char>, Seq<char>)>,
    i: int,
    bus: int,
)
    requires
        !base.contains('?'),
        pairs.len() > 0 && text::are_pairs(pairs),
    ensures
        ({
            let uri = base + seq!['?'] + text::query_of(pairs);
            let off_net = has_none_with(pairs, "ip"@) && has_none_with(pairs, "hostname"@)
                && has_none_with(pairs, "zc"@);
            let on_usb = is_last_with(pairs, bus, "bus"@) && pairs[bus].1 == "usb"@;
            &&& is_last_with(pairs, i, "ip"@) ==> physical_address(uri) == Some(lower(pairs[i].1))
            &&& has_none_with(pairs, "ip"@) && is_last_with(pairs, i, "hostname"@)
                ==> physical_address(uri) == Some(lower(drop_trailing(pairs[i].1, '.')))
            &&& has_none_with(pairs, "ip"@) && has_none_with(pairs, "hostname"@) && is_last_with(
                pairs,
                i,
                "zc"@,
            ) ==> physical_address(uri) == Some(lower(drop_trailing(pairs[i].1, '.')))
            &&& off_net && on_usb && is_last_with(pairs, i, "serial"@) ==> physical_address(uri)
                == Some(pairs[i].1)
            &&& off_net && on_usb && has_none_with(pairs, "serial"@) && is_last_with(
                pairs,
                i,
                "device"@,
            ) ==> physical_address(uri) == Some(pairs[i].1)
            &&& off_net && (has_none_with(pairs, "bus"@) || is_last_with(pairs, bus, "bus"@)
                && pairs[bus].1 != "usb"@) ==> physical_address(uri) is None
        }),
        physical_address(base) is None,
        // A scanner is reached there, and by its URI where that says nothing.
        physical_address(base) is None ==> address_of(base) == base,
        physical_address(base + seq!['?'] + text::query_of(pairs)) matches Some(a) ==> address_of(
            base + seq!['?'] + text::query_of(pairs),
        ) == a,
{
    let query = text::query_of(pairs);
    let uri = base + seq!['?'] + query;
    let pieces = split(query, '&');
    text::lemma_split_first(base, '?', query);
    text::lemma_index_of(base, '?');
    assert(uri.skip(base.len() as int + 1) =~= query);
    text::lemma_query_pieces(pairs);
    assert(all_pairs(pieces));
    lemma_last_value(pieces, pairs, "ip"@, i);
    lemma_last_value(pieces, pairs, "hostname"@, i);
    lemma_last_value(pieces, pairs, "zc"@, i);
    lemma_last_value(pieces, pairs, "serial"@, i);
    lemma_last_value(pieces, pairs, "device"@, i);
    lemma_last_value(pieces, pairs, "bus"@, bus);
}

/// The paper paths that `scan-src` says: its lowest bit is the glass, the next the feeder, and
/// the others say nothing; the glass comes first.
pub proof fn law_the_two_lowest_bits_are_paper_paths(scan_src: u32)
    ensures
        paper_paths(scan_src).contains(Source::Flatbed) <==> scan_src % 2 == 1,
        paper_paths(scan_src).contains(Source::Adf) <==> (scan_src / 2) % 2 == 1,
        paper_paths(scan_src).len() == scan_src % 2 + (scan_src / 2) % 2,
        scan_src % 2 == 1 ==> paper_paths(scan_src)[0] == Source::Flatbed,
{
    assert((scan_src & 1 != 0) == (scan_src % 2 == 1)) by (bit_vector);
    assert((scan_src & 2 != 0) == ((scan_src / 2) % 2 == 1)) by (bit_vector);
    let p = paper_paths(scan_src);
    if scan_src & 1 != 0 {
        assert(p[0] == Source::Flatbed);
        if scan_src & 2 != 0 {
            assert(p[1] == Source::Adf);
        }
    } else if scan_src & 2 != 0 {
        assert(p[0] == Source::Adf);
    }
}

/// A model needs the plugin exactly where its `plugin` is above zero, or where its reason is
/// one of the three that speak of scanning.
pub proof fn law_scanning_reasons_need_the_plugin(model: ModelInfo)
    ensures
        needs_plugin(model) <==> model.plugin > 0 || (model.plugin_reason / 64) % 2 == 1 || (
        model.plugin_reason / 128) % 2 == 1 || (model.plugin_reason / 256) % 2 == 1,
{
    let r: u32 = model.plugin_reason;
    assert((r & 0x1c0 != 0) == ((r / 64) % 2 == 1 || (r / 128) % 2 == 1 || (r / 256) % 2 == 1))
        by (bit_vector);
}

/// What a scanner that a probe found is: called what the probe calls it, reached where its URI
/// says, and offering what `models.dat` says of its model and nothing more; everything under
/// its keys is what was found, and a model that is not in the list has all its numbers zero.
#[verifier::rlimit(40)]
pub proof fn law_a_probed_scanner_is_what_was_found(
    record: ProbeRecordView,
    models: Map<Seq<char>, ModelInfo>,
    key: Seq<char>,
)
    requires
        probed_scanner(record, models) is Some,
    ensures
        ({
            let s = probed_scanner(record, models)->Some_0;
            let c = s.capabilities;
            let model = model_key_of(record.device_uri);
            let info = if model is Some && models.dom().contains(model->Some_0) {
                models[model->Some_0]
            } else {
                ModelInfo { scan_type: 0, scan_src: 0, plugin: 0, plugin_reason: 0 }
            };
            &&& s.name == record.display_name && s.backend == "hplip"@ && s.status
                == Status::Online
            &&& s.address == address_of(record.device_uri)
            &&& scanner_id("hplip"@, s.address) == Some(s.id)
            &&& c.sources == paper_paths(info.scan_src)
            &&& c.duplex <==> info.scan_type == 6
            &&& c.buttons == 0 && c.labels.len() == 0 && !c.label_configurable
            &&& c.resolutions.len() == 0 && c.color_modes.len() == 0
            &&& c.extra.len() == 1 && c.extra[0].0 == "hplip"@
            &&& c.extra[0].1 matches ValueView::Dict(inner) && dict_get(inner, key) == (if key
                == "device_uri"@ {
                Some(ValueView::Str(record.device_uri))
            } else if key == "model_key"@ && model is Some {
                Some(ValueView::Str(model->Some_0))
            } else if key == "model_name"@ {
                Some(ValueView::Str(record.model_name))
            } else if key == "plugin_reason"@ {
                Some(ValueView::U64(info.plugin_reason as u64))
            } else if key == "plugin_required"@ {
                Some(ValueView::Bool(needs_plugin(info)))
            } else if key == "scan_src"@ {
                Some(ValueView::U64(info.scan_src as u64))
            } else if key == "scan_type"@ {
                Some(ValueView::I64(info.scan_type as i64))
            } else {
                None
            })
        }),
{
    let model = model_key_of(record.device_uri);
    let info = info_of(record.device_uri, models);
    let none = Seq::<(Seq<char>, ValueView)>::empty();
    let uri = ("device_uri"@, ValueView::Str(record.device_uri));
    let e0 = seq![uri];
    assert(e0 =~= none.push(uri));
    lemma_dict_push(none, uri, key);
    let e1 = match model {
        Some(k) => e0.push(("model_key"@, ValueView::Str(k))),
        None => e0,
    };
    match model {
        Some(k) => {
            lemma_dict_push(e0, ("model_key"@, ValueView::Str(k)), key);
        },
        None => {},
    }
    let p2 = ("model_name"@, ValueView::Str(record.model_name));
    let p3 = ("plugin_reason"@, ValueView::U64(info.plugin_reason as u64));
    let p4 = ("plugin_required"@, ValueView::Bool(needs_plugin(info)));
    let p5 = ("scan_src"@, ValueView::U64(info.scan_src as u64));
    let p6 = ("scan_type"@, ValueView::I64(info.scan_type as i64));
    let e2 = e1.push(p2);
    let e3 = e2.push(p3);
    let e4 = e3.push(p4);
    let e5 = e4.push(p5);
    lemma_dict_push(e1, p2, key);
    lemma_dict_push(e2, p3, key);
    lemma_dict_push(e3, p4, key);
    lemma_dict_push(e4, p5, key);
    lemma_dict_push(e5, p6, key);
}

/// Discovery gives one scanner for every device that the probe lists, in order, whatever is
/// known of the models; a probe that is not there finds nothing, and one that could not be run
/// or failed is an error.
pub proof fn law_every_listed_device_is_a_scanner(
    run: Option<CommandRun>,
    models: Map<Seq<char>, ModelInfo>,
    i: int,
)
    ensures
        run is None ==> discovered(run, models) == Ok::<Seq<ScannerInfoView>, BackendErrorView>(
            seq![],
        ),
        run matches Some(CommandRun::NotRun(_)) ==> discovered(run, models) is Err,
        run matches Some(CommandRun::Exited { success, .. }) ==> (!success ==> discovered(
            run,
            models,
        ) is Err),
        run matches Some(CommandRun::Exited { success, stdout, .. }) ==> (success ==> ({
            let records = records_in(lines(text::lossy(stdout@)));
            match discovered(run, models) {
                Ok(found) => found.len() == records.len() && (0 <= i < records.len() ==> Some(
                    found[i],
                ) == probed_scanner(records[i], models)),
                Err(_) => exists|j: int|
                    0 <= j < records.len() && address_of(
                        (#[trigger] records[j]).device_uri,
                    ).len() == 0,
            }
        })),
{
    match run {
        Some(CommandRun::Exited { success, stdout, .. }) => {
            let records = records_in(lines(text::lossy(stdout@)));
            if success {
                if all_addressed(records, models) {
                    if 0 <= i < records.len() {
                        assert(probed_scanner(records[i], models) is Some);
                    }
                } else {
                    let j = choose|j: int|
                        0 <= j < records.len() && !(probed_scanner(#[trigger] records[j], models)
                            is Some);
                    assert(address_of(records[j].device_uri).len() == 0);
                }
            }
        },
        _ => {},
    }
}

/// A scanner can be used exactly where both packages are there and no plugin is needed: a
/// package is where `dpkg-query` succeeds and says `installed`, and without that tool where
/// one of its files is. The first package that is missing is the one that is named.
pub proof fn law_nothing_missing_is_needed_to_scan(
    scanner: ScannerInfoView,
    hplip: PackageQuery,
    hpaio: PackageQuery,
)
    ensures
        ({
            let there = |q: PackageQuery| match q {
                PackageQuery::NoTool { file_present } => file_present,
                PackageQuery::Asked(CommandRun::NotRun(_)) => false,
                PackageQuery::Asked(CommandRun::Exited { success, stdout, .. }) => success && trim(
                    text::lossy(stdout@),
                ) == "installed"@,
            };
            let unasked = |q: PackageQuery| q matches PackageQuery::Asked(CommandRun::NotRun(_));
            let found = install_obstacle(scanner, hplip, hpaio);
            &&& found is None <==> there(hplip) && there(hpaio) && !says_plugin(
                scanner.capabilities.extra,
            )
            &&& unasked(hplip) || unasked(hpaio) ==> (found is Some && found->Some_0 is Other)
            &&& !unasked(hplip) && !unasked(hpaio) && !there(hplip) ==> (found matches Some(
                BackendErrorView::InstallFailed { package, .. },
            ) && package == "hplip"@)
            &&& !unasked(hplip) && !unasked(hpaio) && there(hplip) && !there(hpaio) ==> (
            found matches Some(BackendErrorView::InstallFailed { package, .. }) && package
                == "libsane-hpaio"@)
            &&& there(hplip) && there(hpaio) && says_plugin(scanner.capabilities.extra) ==> (
            found matches Some(BackendErrorView::InstallFailed { package, .. }) && package
                == "hp-plugin"@)
        }),
{
}

/// A scanner needs the plugin exactly where discovery said so under its own key; one of which
/// nothing, or something else, is said there does not.
pub proof fn law_a_plugin_is_needed_where_it_is_said(
    extra: Seq<(Seq<char>, ValueView)>,
    record: ProbeRecordView,
    models: Map<Seq<char>, ModelInfo>,
)
    ensures
        says_plugin(extra) <==> (dict_get(extra, "hplip"@) matches Some(ValueView::Dict(inner))
            && dict_get(inner, "plugin_required"@) == Some(ValueView::Bool(true))),
        probed_scanner(record, models) matches Some(s) ==> (says_plugin(s.capabilities.extra)
            <==> needs_plugin(info_of(record.device_uri, models))),
{
    if probed_scanner(record, models) is Some {
        law_a_probed_scanner_is_what_was_found(record, models, "plugin_required"@);
        reveal_strlit("plugin_required");
        reveal_strlit("device_uri");
        reveal_strlit("model_key");
        reveal_strlit("model_name");
        reveal_strlit("plugin_reason");
        assert("plugin_required"@.len() == 15 && "device_uri"@.len() == 10 && "model_key"@.len()
            == 9 && "model_name"@.len() == 10 && "plugin_reason"@.len() == 13);
    }
}

} // verus!
