//! What scanbus says of a scanner, as far as the backends read and fill it.
use vstd::prelude::*;
use vstd::utf8::encode_utf8;

use crate::text;

verus! {

// --------------------------------------------------------------------------- scanner ids

/// The name of a scanner on the bus: its backend, an underscore, and its address with
/// every byte other than an ASCII letter or digit written as an underscore and two
/// hexadecimal digits.
#[derive(Debug, PartialEq, Eq, PartialOrd, Ord, Hash)]
pub struct ScannerId(String);

impl View for ScannerId {
    type V = Seq<char>;

    closed spec fn view(&self) -> Seq<char> {
        self.0@
    }
}

impl Clone for ScannerId {
    fn clone(&self) -> (r: Self)
        ensures
            r@ == self@,
    {
        ScannerId(self.0.clone())
    }
}

/// The upper-case hexadecimal digit that writes `d`.
pub open spec fn hex_upper(d: nat) -> char {
    if d < 10 {
        (0x30 + d) as char
    } else {
        (0x41 + d - 10) as char
    }
}

/// One byte of an address in a scanner id.
pub open spec fn escape_byte(b: u8) -> Seq<char> {
    if text::is_alnum(b as char) {
        seq![b as char]
    } else {
        seq!['_', hex_upper((b / 16) as nat), hex_upper((b % 16) as nat)]
    }
}

/// The bytes of an address in a scanner id.
pub open spec fn escape_bytes(bytes: Seq<u8>) -> Seq<char>
    decreases bytes.len(),
{
    if bytes.len() == 0 {
        seq![]
    } else {
        escape_bytes(bytes.drop_last()) + escape_byte(bytes.last())
    }
}

/// The id of the scanner that a backend reaches at an address; none without an address. How
/// the bytes of the address are escaped is this library's own choice.
pub open spec fn scanner_id(backend: Seq<char>, address: Seq<char>) -> Option<Seq<char>> {
    if address.len() == 0 {
        None
    } else {
        Some(backend + "_"@ + escape_bytes(encode_utf8(address)))
    }
}

/// What is said of an address that names no scanner, in this library's own words.
pub const NO_ADDRESS: &'static str = "a scanner id needs an address";

fn upper_digit(d: u8) -> (r: char)
    requires
        d < 16,
    ensures
        r == hex_upper(d as nat),
{
    if d < 10 {
        (0x30 + d) as char
    } else {
        (0x41 + (d - 10)) as char
    }
}

impl ScannerId {
    /// The id of the scanner that a backend reaches at an address.
    pub fn from_backend(backend: &str, address: &str) -> (r: Result<ScannerId, String>)
        ensures
            match scanner_id(backend@, address@) {
                Some(id) => r matches Ok(x) && x@ == id,
                None => r matches Err(e) && e@ == NO_ADDRESS@,
            },
    {
        if address.is_empty() {
            return Err(NO_ADDRESS.to_owned());
        }
        let bytes = address.as_bytes();
        let mut out = backend.to_owned();
        out.append("_");
        let ghost head = out@;
        let mut i: usize = 0;
        assert(bytes@.take(0) =~= Seq::<u8>::empty());
        assert(out@ =~= head + escape_bytes(bytes@.take(0)));
        while i < bytes.len()
            invariant
                i <= bytes@.len(),
                out@ == head + escape_bytes(bytes@.take(i as int)),
            decreases bytes@.len() - i,
        {
            let b: u8 = bytes[i];
            let ghost before = out@;
            if text::alnum(b as char) {
                out.push(b as char);
            } else {
                out.push('_');
                out.push(upper_digit(b / 16));
                out.push(upper_digit(b % 16));
            }
            proof {
                assert(out@ =~= before + escape_byte(b));
                assert(bytes@.take(i + 1).drop_last() =~= bytes@.take(i as int));
                assert(out@ =~= head + escape_bytes(bytes@.take(i + 1)));
            }
            i = i + 1;
        }
        assert(bytes@.take(i as int) =~= bytes@);
        Ok(ScannerId(out))
    }

    /// The id as text.
    pub fn as_str(&self) -> (r: &str)
        ensures
            r@ == self@,
    {
        self.0.as_str()
    }

    /// Whether two ids are the same.
    pub fn same(&self, other: &ScannerId) -> (r: bool)
        ensures
            r == (self@ == other@),
    {
        text::same(self.0.as_str(), other.0.as_str())
    }

    /// Whether this id comes before another.
    pub fn comes_before(&self, other: &ScannerId) -> (r: bool)
        ensures
            r == text::precedes(self@, other@),
    {
        text::comes_before(self.0.as_str(), other.0.as_str())
    }
}

// -------------------------------------------------------------------------------- errors

/// What a backend reports when it cannot do what it was asked.
#[derive(Debug, Clone, PartialEq, Eq)]
pub enum BackendError {
    /// The device did not answer, or could not be asked.
    NotReachable { scanner: ScannerId, detail: String },
    /// Something the backend needs is not installed.
    InstallFailed { package: String, detail: String },
    /// No such job, or no longer.
    UnknownJob { scanner: ScannerId, job: String },
    /// The backend does not do this.
    Unsupported { backend: &'static str, operation: &'static str },
    /// Anything else.
    Other(String),
}

/// What a [`BackendError`] says.
pub enum BackendErrorView {
    NotReachable { scanner: Seq<char>, detail: Seq<char> },
    InstallFailed { package: Seq<char>, detail: Seq<char> },
    UnknownJob { scanner: Seq<char>, job: Seq<char> },
    Unsupported { backend: Seq<char>, operation: Seq<char> },
    Other(Seq<char>),
}

impl View for BackendError {
    type V = BackendErrorView;

    open spec fn view(&self) -> BackendErrorView {
        match *self {
            BackendError::NotReachable { scanner, detail } => BackendErrorView::NotReachable {
                scanner: scanner@,
                detail: detail@,
            },
            BackendError::InstallFailed { package, detail } => BackendErrorView::InstallFailed {
                package: package@,
                detail: detail@,
            },
            BackendError::UnknownJob { scanner, job } => BackendErrorView::UnknownJob {
                scanner: scanner@,
                job: job@,
            },
            BackendError::Unsupported { backend, operation } => BackendErrorView::Unsupported {
                backend: backend@,
                operation: operation@,
            },
            BackendError::Other(detail) => BackendErrorView::Other(detail@),
        }
    }
}

/// The sentence an error is reported with. The words around what the error holds are this
/// library's own.
pub open spec fn backend_error_text(e: BackendErrorView) -> Seq<char> {
    match e {
        BackendErrorView::NotReachable { scanner, detail } => "scanner "@ + scanner
            + " is not reachable: "@ + detail,
        BackendErrorView::InstallFailed { package, detail } => package + ": "@ + detail,
        BackendErrorView::UnknownJob { scanner, job } => "scanner "@ + scanner + " has no job "@
            + job,
        BackendErrorView::Unsupported { backend, operation } => backend + " does not support "@
            + operation,
        BackendErrorView::Other(detail) => detail,
    }
}

impl BackendError {
    /// The sentence this error is reported with.
    pub fn to_text(&self) -> (r: String)
        ensures
            r@ == backend_error_text(self@),
    {
        match self {
            BackendError::NotReachable { scanner, detail } => {
                let mut out = "scanner ".to_owned();
                out.append(scanner.as_str());
                out.append(" is not reachable: ");
                out.append(detail.as_str());
                out
            },
            BackendError::InstallFailed { package, detail } => {
                let mut out = package.clone();
                out.append(": ");
                out.append(detail.as_str());
                out
            },
            BackendError::UnknownJob { scanner, job } => {
                let mut out = "scanner ".to_owned();
                out.append(scanner.as_str());
                out.append(" has no job ");
                out.append(job.as_str());
                out
            },
            BackendError::Unsupported { backend, operation } => {
                let mut out = (*backend).to_owned();
                out.append(" does not support ");
                out.append(operation);
                out
            },
            BackendError::Other(detail) => detail.clone(),
        }
    }
}

// -------------------------------------------------------------------------------- values

/// A property of a scanner, or an option of a profile.
#[derive(Debug, PartialEq, Eq)]
pub enum Value {
    Bool(bool),
    I64(i64),
    U64(u64),
    Str(String),
    Dict(Vec<(String, Value)>),
    /// A value of a kind that no backend reads.
    Opaque,
}

/// What a [`Value`] says.
pub enum ValueView {
    Bool(bool),
    I64(i64),
    U64(u64),
    Str(Seq<char>),
    Dict(Seq<(Seq<char>, ValueView)>),
    Opaque,
}

/// What a value says.
pub open spec fn value_view(v: Value) -> ValueView
    decreases v,
{
    match v {
        Value::Bool(b) => ValueView::Bool(b),
        Value::I64(n) => ValueView::I64(n),
        Value::U64(n) => ValueView::U64(n),
        Value::Str(s) => ValueView::Str(s@),
        Value::Dict(entries) => ValueView::Dict(
            Seq::new(
                entries@.len(),
                |i: int|
                    if 0 <= i < entries@.len() {
                        (entries@[i].0@, value_view(entries@[i].1))
                    } else {
                        arbitrary()
                    },
            ),
        ),
        Value::Opaque => ValueView::Opaque,
    }
}

/// What the entries of a dictionary say, in order.
pub open spec fn dict_view(entries: Seq<(String, Value)>) -> Seq<(Seq<char>, ValueView)> {
    Seq::new(entries.len(), |i: int| (entries[i].0@, value_view(entries[i].1)))
}

impl View for Value {
    type V = ValueView;

    open spec fn view(&self) -> ValueView {
        value_view(*self)
    }
}

/// A dictionary says what its entries say.
pub proof fn lemma_dict_value(entries: Vec<(String, Value)>)
    ensures
        value_view(Value::Dict(entries)) == ValueView::Dict(dict_view(entries@)),
{
    let v = value_view(Value::Dict(entries));
    match v {
        ValueView::Dict(s) => {
            assert(s =~= dict_view(entries@));
        },
        _ => {},
    }
}

fn copy_value(v: &Value) -> (r: Value)
    ensures
        r@ == v@,
    decreases v,
{
    match v {
        Value::Bool(b) => Value::Bool(*b),
        Value::I64(n) => Value::I64(*n),
        Value::U64(n) => Value::U64(*n),
        Value::Str(s) => Value::Str(s.clone()),
        Value::Dict(entries) => {
            let mut out: Vec<(String, Value)> = Vec::new();
            let mut i: usize = 0;
            while i < entries.len()
                invariant
                    v == Value::Dict(*entries),
                    i <= entries@.len(),
                    out@.len() == i,
                    dict_view(out@) =~= dict_view(entries@).take(i as int),
                decreases entries@.len() - i,
            {
                let key = entries[i].0.clone();
                let inner = &entries[i].1;
                assert(decreases_to!(v => v->Dict_0));
                assert(decreases_to!(v->Dict_0 => v->Dict_0@));
                assert(decreases_to!(v->Dict_0@ => v->Dict_0@[i as int]));
                assert(decreases_to!(v->Dict_0@[i as int] => v->Dict_0@[i as int].1));
                let value = copy_value(inner);
                out.push((key, value));
                i = i + 1;
            }
            proof {
                lemma_dict_value(*entries);
                lemma_dict_value(out);
                assert(dict_view(entries@).take(i as int) =~= dict_view(entries@));
            }
            Value::Dict(out)
        },
        Value::Opaque => Value::Opaque,
    }
}

impl Clone for Value {
    fn clone(&self) -> (r: Self)
        ensures
            r@ == self@,
    {
        copy_value(self)
    }
}

/// A copy of the entries of a dictionary.
pub fn copy_entries(entries: &Vec<(String, Value)>) -> (r: Vec<(String, Value)>)
    ensures
        dict_view(r@) == dict_view(entries@),
{
    let mut out: Vec<(String, Value)> = Vec::new();
    let mut i: usize = 0;
    while i < entries.len()
        invariant
            i <= entries@.len(),
            out@.len() == i,
            dict_view(out@) =~= dict_view(entries@).take(i as int),
        decreases entries@.len() - i,
    {
        let key = entries[i].0.clone();
        let value = copy_value(&entries[i].1);
        out.push((key, value));
        i = i + 1;
    }
    assert(dict_view(entries@).take(i as int) =~= dict_view(entries@));
    out
}

/// Put an entry behind those of a dictionary.
pub fn put(entries: &mut Vec<(String, Value)>, key: &str, value: Value)
    ensures
        dict_view(final(entries)@) == dict_view(old(entries)@).push((key@, value@)),
{
    let ghost before = entries@;
    entries.push((key.to_owned(), value));
    assert(dict_view(entries@) =~= dict_view(before).push((key@, value@)));
}

/// The value of the first entry with a key.
pub open spec fn dict_get(entries: Seq<(Seq<char>, ValueView)>, key: Seq<char>) -> Option<
    ValueView,
>
    decreases entries.len(),
{
    if entries.len() == 0 {
        None
    } else if entries[0].0 == key {
        Some(entries[0].1)
    } else {
        dict_get(entries.drop_first(), key)
    }
}

/// The value of the first entry with a key.
pub fn get<'a>(entries: &'a Vec<(String, Value)>, key: &str) -> (r: Option<&'a Value>)
    ensures
        match r {
            Some(v) => dict_get(dict_view(entries@), key@) == Some(v@),
            None => dict_get(dict_view(entries@), key@) is None,
        },
{
    let ghost all = dict_view(entries@);
    let mut i: usize = 0;
    assert(all.skip(0) =~= all);
    while i < entries.len()
        invariant
            all == dict_view(entries@),
            i <= entries@.len(),
            dict_get(all, key@) == dict_get(all.skip(i as int), key@),
        decreases entries@.len() - i,
    {
        assert(all.skip(i as int)[0] == all[i as int]);
        assert(all.skip(i as int).drop_first() =~= all.skip(i + 1));
        if text::same(entries[i].0.as_str(), key) {
            return Some(&entries[i].1);
        }
        i = i + 1;
    }
    None
}

/// One more entry changes what is found under its own key alone, and that only where
/// nothing was.
pub proof fn lemma_dict_push(
    entries: Seq<(Seq<char>, ValueView)>,
    entry: (Seq<char>, ValueView),
    key: Seq<char>,
)
    ensures
        dict_get(entries.push(entry), key) == (match dict_get(entries, key) {
            Some(v) => Some(v),
            None => if entry.0 == key {
                Some(entry.1)
            } else {
                None
            },
        }),
    decreases entries.len(),
{
    let more = entries.push(entry);
    if entries.len() == 0 {
        assert(more.drop_first() =~= seq![]);
    } else {
        assert(more.drop_first() =~= entries.drop_first().push(entry));
        lemma_dict_push(entries.drop_first(), entry, key);
    }
}

/// The text under `key` in the dictionary under `name`, where both are there.
pub open spec fn nested_text(
    entries: Seq<(Seq<char>, ValueView)>,
    name: Seq<char>,
    key: Seq<char>,
) -> Option<Seq<char>> {
    match dict_get(entries, name) {
        Some(ValueView::Dict(inner)) => match dict_get(inner, key) {
            Some(ValueView::Str(s)) => Some(s),
            _ => None,
        },
        _ => None,
    }
}

/// The text under `key` in the dictionary under `name`, where both are there.
pub fn nested_str<'a>(entries: &'a Vec<(String, Value)>, name: &str, key: &str) -> (r: Option<
    &'a String,
>)
    ensures
        match r {
            Some(s) => nested_text(dict_view(entries@), name@, key@) == Some(s@),
            None => nested_text(dict_view(entries@), name@, key@) is None,
        },
{
    match get(entries, name) {
        Some(Value::Dict(inner)) => {
            proof {
                lemma_dict_value(*inner);
            }
            match get(inner, key) {
                Some(Value::Str(s)) => Some(s),
                _ => None,
            }
        },
        _ => None,
    }
}

// ---------------------------------------------------------------------------- capabilities

/// A paper path.
#[derive(Debug, Clone, Copy, PartialEq, Eq, PartialOrd, Ord, Hash, Structural)]
pub enum Source {
    Flatbed,
    Adf,
}

/// A colour mode.
#[derive(Debug, Clone, Copy, PartialEq, Eq, PartialOrd, Ord, Hash, Structural)]
pub enum ColorMode {
    Color,
    Gray,
    Bw,
}

/// What the pages of a scan become.
#[derive(Debug, Clone, Copy, PartialEq, Eq, PartialOrd, Ord, Hash, Structural)]
pub enum ProfileKind {
    Document,
    Image,
    Ocr,
    Email,
}

/// Whether a scanner is there.
#[derive(Debug, Clone, Copy, PartialEq, Eq, Structural)]
pub enum Status {
    Online,
    Offline,
}

/// The form of a page's bytes.
#[derive(Debug, Clone, Copy, PartialEq, Eq, Structural)]
pub enum PageFormat {
    Pnm,
}

/// One page of a scan.
#[derive(Debug, Clone, PartialEq, Eq)]
pub struct RawPage {
    /// The page's place in the scan; the first is 0.
    pub index: u32,
    pub format: PageFormat,
    pub resolution_dpi: u32,
    pub data: Vec<u8>,
}

/// The keys on a scanner's panel.
#[derive(Debug, Clone, PartialEq, Eq)]
pub struct ButtonsCapability {
    pub count: u32,
    pub label_configurable: bool,
    pub labels: Vec<String>,
}

/// What a scanner can be asked for.
#[derive(Debug, Clone, PartialEq, Eq)]
pub struct Capabilities {
    pub resolutions: Vec<u32>,
    pub color_modes: Vec<ColorMode>,
    pub sources: Vec<Source>,
    pub duplex: bool,
    pub buttons: ButtonsCapability,
    /// What the backend adds, by key.
    pub extra: Vec<(String, Value)>,
}

/// What [`Capabilities`] say.
pub struct CapabilitiesView {
    pub resolutions: Seq<u32>,
    pub color_modes: Seq<ColorMode>,
    pub sources: Seq<Source>,
    pub duplex: bool,
    pub buttons: u32,
    pub label_configurable: bool,
    pub labels: Seq<Seq<char>>,
    pub extra: Seq<(Seq<char>, ValueView)>,
}

impl View for Capabilities {
    type V = CapabilitiesView;

    open spec fn view(&self) -> CapabilitiesView {
        CapabilitiesView {
            resolutions: self.resolutions@,
            color_modes: self.color_modes@,
            sources: self.sources@,
            duplex: self.duplex,
            buttons: self.buttons.count,
            label_configurable: self.buttons.label_configurable,
            labels: text::all_texts(self.buttons.labels@),
            extra: dict_view(self.extra@),
        }
    }
}

/// A scanner as discovery describes it.
#[derive(Debug, Clone, PartialEq, Eq)]
pub struct ScannerInfo {
    pub id: ScannerId,
    pub name: String,
    pub backend: String,
    pub address: String,
    pub capabilities: Capabilities,
    pub status: Status,
}

/// What a [`ScannerInfo`] says.
pub struct ScannerInfoView {
    pub id: Seq<char>,
    pub name: Seq<char>,
    pub backend: Seq<char>,
    pub address: Seq<char>,
    pub capabilities: CapabilitiesView,
    pub status: Status,
}

impl View for ScannerInfo {
    type V = ScannerInfoView;

    open spec fn view(&self) -> ScannerInfoView {
        ScannerInfoView {
            id: self.id@,
            name: self.name@,
            backend: self.backend@,
            address: self.address@,
            capabilities: self.capabilities@,
            status: self.status,
        }
    }
}

/// What several scanners say.
pub open spec fn scanner_views(v: Seq<ScannerInfo>) -> Seq<ScannerInfoView> {
    v.map_values(|s: ScannerInfo| s@)
}

/// The first of two that is there.
pub open spec fn either<T>(a: Option<T>, b: Option<T>) -> Option<T> {
    match a {
        Some(x) => Some(x),
        None => b,
    }
}

/// A text that may not be there.
pub open spec fn optional(s: Option<String>) -> Option<Seq<char>> {
    match s {
        Some(x) => Some(x@),
        None => None,
    }
}

// -------------------------------------------------------------------------------- pairing

/// What a client sees of a pairing under way.
#[derive(Debug, Clone, PartialEq, Eq)]
pub enum PairingProgress {
    Checking { message: String },
    Installing { package: String, percent: Option<u8> },
    Ready,
    Failed { message: String },
}

/// What a [`PairingProgress`] says.
pub enum PairingProgressView {
    Checking { message: Seq<char> },
    Installing { package: Seq<char>, percent: Option<u8> },
    Ready,
    Failed { message: Seq<char> },
}

impl View for PairingProgress {
    type V = PairingProgressView;

    open spec fn view(&self) -> PairingProgressView {
        match *self {
            PairingProgress::Checking { message } => PairingProgressView::Checking {
                message: message@,
            },
            PairingProgress::Installing { package, percent } => PairingProgressView::Installing {
                package: package@,
                percent,
            },
            PairingProgress::Ready => PairingProgressView::Ready,
            PairingProgress::Failed { message } => PairingProgressView::Failed {
                message: message@,
            },
        }
    }
}

// -------------------------------------------------------------------- subprocess outcomes

/// How a process that failed ended.
pub open spec fn exit_text(code: Option<i32>) -> Seq<char> {
    match code {
        Some(n) => "exit code "@ + text::signed_decimal(n as int),
        None => "signal"@,
    }
}

/// How a process that failed ended.
pub fn exit_description(code: Option<i32>) -> (r: String)
    ensures
        r@ == exit_text(code),
{
    match code {
        Some(n) => {
            let mut out = "exit code ".to_owned();
            out.append(text::signed_text(n).as_str());
            out
        },
        None => "signal".to_owned(),
    }
}

/// What came of running a program.
#[derive(Debug)]
pub enum CommandRun {
    /// It could not be run, for this reason.
    NotRun(String),
    /// It ran to its end.
    Exited { success: bool, code: Option<i32>, stdout: Vec<u8>, stderr: Vec<u8> },
}

/// What a process printed, both streams trimmed.
pub open spec fn output_text(stdout: Seq<char>, stderr: Seq<char>) -> Seq<char> {
    let out = text::trim(stdout);
    let err = text::trim(stderr);
    if out.len() > 0 && err.len() > 0 {
        out + "; "@ + err
    } else if out.len() > 0 {
        out
    } else if err.len() > 0 {
        err
    } else {
        "no output"@
    }
}

/// What a process printed, given as the bytes of its two streams.
pub fn command_output(stdout: &[u8], stderr: &[u8]) -> (r: String)
    ensures
        r@ == output_text(text::lossy(stdout@), text::lossy(stderr@)),
{
    join_output(text::lossy_text(stdout).as_str(), text::lossy_text(stderr).as_str())
}

/// What a process printed, given as the text of its two streams.
pub fn join_output(stdout: &str, stderr: &str) -> (r: String)
    ensures
        r@ == output_text(stdout@, stderr@),
{
    let out = text::trim_text(stdout);
    let err = text::trim_text(stderr);
    if !out.as_str().is_empty() && !err.as_str().is_empty() {
        let mut both = out;
        both.append("; ");
        both.append(err.as_str());
        both
    } else if !out.as_str().is_empty() {
        out
    } else if !err.as_str().is_empty() {
        err
    } else {
        "no output".to_owned()
    }
}

// ------------------------------------------------------------------------------------ laws

proof fn lemma_hex_upper(d: nat, e: nat)
    requires
        d < 16 && e < 16,
    ensures
        hex_upper(d) == hex_upper(e) ==> d == e,
{
    assert(hex_upper(d) as nat == if d < 10 { 0x30 + d } else { (0x41 + d - 10) as nat });
    assert(hex_upper(e) as nat == if e < 10 { 0x30 + e } else { (0x41 + e - 10) as nat });
}

proof fn lemma_escape_first(bytes: Seq<u8>)
    requires
        bytes.len() > 0,
    ensures
        escape_bytes(bytes) == escape_byte(bytes[0]) + escape_bytes(bytes.drop_first()),
    decreases bytes.len(),
{
    let front = bytes.drop_last();
    if front.len() == 0 {
        assert(bytes.drop_first() =~= seq![]);
        assert(front =~= seq![]);
        assert(bytes.last() == bytes[0]);
        assert(escape_bytes(front) =~= seq![]);
        assert(escape_bytes(bytes.drop_first()) =~= seq![]);
        assert(escape_bytes(bytes) =~= escape_byte(bytes[0]) + escape_bytes(bytes.drop_first()));
    } else {
        lemma_escape_first(front);
        let less = bytes.drop_first();
        assert(less.drop_last() =~= front.drop_first());
        assert(escape_bytes(bytes) =~= escape_byte(bytes[0]) + escape_bytes(less));
    }
}

proof fn lemma_escape_one_way(a: Seq<u8>, b: Seq<u8>)
    requires
        escape_bytes(a) == escape_bytes(b),
    ensures
        a == b,
    decreases a.len(),
{
    if a.len() > 0 {
        lemma_escape_first(a);
    }
    if b.len() > 0 {
        lemma_escape_first(b);
    }
    if a.len() > 0 && b.len() > 0 {
        let (p, q) = (a[0], b[0]);
        let (s, t) = (escape_bytes(a.drop_first()), escape_bytes(b.drop_first()));
        let all = escape_bytes(a);
        assert(all[0] == escape_byte(p)[0] && all[0] == escape_byte(q)[0]);
        if text::is_alnum(p as char) {
            assert(all[0] == p as char && all[0] != '_');
            assert(text::is_alnum(q as char));
            assert(p as char == q as char);
            assert((p as char) as nat == p as nat && (q as char) as nat == q as nat);
            assert(s =~= all.skip(1) && t =~= all.skip(1));
        } else {
            assert(all[0] == '_');
            if text::is_alnum(q as char) {
                assert(all[0] == q as char);
                assert(false);
            }
            assert(all[1] == escape_byte(p)[1] && all[1] == escape_byte(q)[1]);
            assert(all[2] == escape_byte(p)[2] && all[2] == escape_byte(q)[2]);
            lemma_hex_upper((p / 16) as nat, (q / 16) as nat);
            lemma_hex_upper((p % 16) as nat, (q % 16) as nat);
            assert(p == q);
            assert(s =~= all.skip(3) && t =~= all.skip(3));
        }
        lemma_escape_one_way(a.drop_first(), b.drop_first());
        assert(a =~= seq![a[0]] + a.drop_first());
        assert(b =~= seq![b[0]] + b.drop_first());
    } else if a.len() > 0 {
        assert(escape_bytes(b).len() == 0);
    } else if b.len() > 0 {
        assert(escape_bytes(a).len() == 0);
    } else {
        assert(a =~= b);
    }
}

/// A scanner id names its scanner: it begins with its backend, every address has one, no two
/// addresses of a backend share one, and only an address gives one.
pub proof fn law_no_two_addresses_share_an_id(
    backend: Seq<char>,
    address: Seq<char>,
    other: Seq<char>,
)
    ensures
        scanner_id(backend, address) is Some <==> address.len() > 0,
        scanner_id(backend, address) matches Some(id) ==> text::begins(id, backend),
        address.len() > 0 && scanner_id(backend, address) == scanner_id(backend, other) ==> address
            == other,
{
    match scanner_id(backend, address) {
        Some(id) => {
            assert(id.take(backend.len() as int) =~= backend);
            if scanner_id(backend, address) == scanner_id(backend, other) {
                let front = backend + "_"@;
                let (a, b) = (encode_utf8(address), encode_utf8(other));
                assert(escape_bytes(a) =~= id.skip(front.len() as int));
                assert(escape_bytes(b) =~= id.skip(front.len() as int));
                lemma_escape_one_way(a, b);
                vstd::utf8::encode_utf8_decode_utf8(address);
                vstd::utf8::encode_utf8_decode_utf8(other);
            }
        },
        None => {},
    }
}

/// The value under a key is that of the first entry with the key, and there is none where no
/// entry has it.
pub proof fn law_the_first_entry_counts(
    entries: Seq<(Seq<char>, ValueView)>,
    key: Seq<char>,
    i: int,
)
    ensures
        0 <= i < entries.len() && entries[i].0 == key && (forall|j: int|
            0 <= j < i ==> (#[trigger] entries[j]).0 != key) ==> dict_get(entries, key) == Some(
            entries[i].1,
        ),
        (forall|j: int| 0 <= j < entries.len() ==> (#[trigger] entries[j]).0 != key) ==> dict_get(
            entries,
            key,
        ) is None,
    decreases entries.len(),
{
    if entries.len() > 0 {
        let less = entries.drop_first();
        law_the_first_entry_counts(less, key, i - 1);
        if forall|j: int| 0 <= j < entries.len() ==> (#[trigger] entries[j]).0 != key {
            assert(entries[0].0 != key);
            assert forall|j: int| 0 <= j < less.len() implies (#[trigger] less[j]).0 != key by {
                let k: int = j + 1;
                assert(entries[k].0 != key);
            }
        }
        if 0 < i < entries.len() && entries[i].0 == key && (forall|j: int|
            0 <= j < i ==> (#[trigger] entries[j]).0 != key) {
            assert(entries[0].0 != key);
            assert(less[i - 1] == entries[i]);
            assert forall|j: int| 0 <= j < i - 1 implies (#[trigger] less[j]).0 != key by {
                let k: int = j + 1;
                assert(entries[k].0 != key);
            }
        }
    }
}

/// What a process printed is told in full: what it said on its output comes first, then what
/// it said as errors; a stream that is blank is left out, and a process that printed nothing
/// is said to have done so. How it ended is told by its code where it has one.
pub proof fn law_everything_printed_is_told(
    stdout: Seq<char>,
    stderr: Seq<char>,
    code: i32,
    other: i32,
)
    ensures
        text::trim(stderr).len() == 0 && text::trim(stdout).len() > 0 ==> output_text(
            stdout,
            stderr,
        ) == text::trim(stdout),
        text::trim(stdout).len() == 0 && text::trim(stderr).len() > 0 ==> output_text(
            stdout,
            stderr,
        ) == text::trim(stderr),
        text::begins(output_text(stdout, stderr), text::trim(stdout)),
        text::ends(output_text(stdout, stderr), text::trim(stderr)),
        output_text(stdout, stderr).len() > 0,
        text::trim(stdout).len() > 0 && text::trim(stderr).len() > 0 ==> output_text(
            stdout,
            stderr,
        ).len() == text::trim(stdout).len() + 2 + text::trim(stderr).len(),
        text::ends(exit_text(Some(code)), text::signed_decimal(code as int)),
        exit_text(None).len() > 0,
        exit_text(Some(code)) != exit_text(None),
{
    reveal_strlit("; ");
    reveal_strlit("no output");
    reveal_strlit("exit code ");
    reveal_strlit("signal");
    let said = output_text(stdout, stderr);
    let (a, b) = (text::trim(stdout), text::trim(stderr));
    assert(said.take(a.len() as int) =~= a);
    assert(said.skip(said.len() - b.len()) =~= b);
    let number = text::signed_decimal(code as int);
    let exit = exit_text(Some(code));
    assert(exit.skip(exit.len() - number.len()) =~= number);
    assert(exit[0] == 'e');
    assert(exit_text(None)[0] == 's');
}

/// An error is told with everything that it holds, each thing in its place.
pub proof fn law_an_error_tells_what_it_holds(e: BackendErrorView)
    ensures
        ({
            let said = backend_error_text(e);
            match e {
                BackendErrorView::NotReachable { scanner, detail } => text::begins(
                    said,
                    "scanner "@ + scanner,
                ) && text::ends(said, detail),
                BackendErrorView::InstallFailed { package, detail } => text::begins(said, package)
                    && text::ends(said, detail),
                BackendErrorView::UnknownJob { scanner, job } => text::begins(
                    said,
                    "scanner "@ + scanner,
                ) && text::ends(said, job),
                BackendErrorView::Unsupported { backend, operation } => text::begins(said, backend)
                    && text::ends(said, operation),
                BackendErrorView::Other(detail) => said == detail,
            }
        }),
{
    let said = backend_error_text(e);
    match e {
        BackendErrorView::NotReachable { scanner, detail } => {
            let a = "scanner "@ + scanner;
            let b = " is not reachable: "@;
            text::lemma_two_parts(a, b + detail);
            text::lemma_two_parts(a + b, detail);
            assert(a + (b + detail) =~= said);
        },
        BackendErrorView::InstallFailed { package, detail } => {
            text::lemma_two_parts(package, ": "@ + detail);
            text::lemma_two_parts(package + ": "@, detail);
            assert(package + (": "@ + detail) =~= said);
        },
        BackendErrorView::UnknownJob { scanner, job } => {
            let a = "scanner "@ + scanner;
            let b = " has no job "@;
            text::lemma_two_parts(a, b + job);
            text::lemma_two_parts(a + b, job);
            assert(a + (b + job) =~= said);
        },
        BackendErrorView::Unsupported { backend, operation } => {
            let b = " does not support "@;
            text::lemma_two_parts(backend, b + operation);
            text::lemma_two_parts(backend + b, operation);
            assert(backend + (b + operation) =~= said);
        },
        BackendErrorView::Other(_) => {},
    }
}

} // verus!
