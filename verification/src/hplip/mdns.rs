//! Recognising an HP scanner in an mDNS record.
//!
//! The service types that scanners announce are vendor-neutral, so what a browse finds is a
//! candidate, not a device. Two filters turn one into the other: the record must name HP,
//! and the model, normalized, must stand in `models.dat` with a scan type other than zero.
use vstd::prelude::*;
use vstd::slice::slice_subrange;

use crate::hplip::probe::{ModelInfo, Models};
use crate::keyed::found;
use crate::mdns::{txt_value, ServiceRecord, ServiceRecordView};
use crate::model::either;
use crate::text;
use crate::text::{
    begins, drop_leading, drop_trailing, ends, lower, lower_char, replaced, trim, trim_end,
};

verus! {

/// The TXT key that states the manufacturer most specifically.
pub const VENDOR_KEY: &'static str = "usb_MFG";

/// The other TXT key that states the manufacturer.
pub const SHORT_VENDOR_KEY: &'static str = "mfg";

/// The TXT key that states the model most specifically.
pub const MODEL_KEY: &'static str = "usb_MDL";

/// The other TXT key that states the model, without the manufacturer in front of it.
pub const SHORT_MODEL_KEY: &'static str = "mdl";

/// The TXT key of the human-readable device name.
pub const TYPE_KEY: &'static str = "ty";

// ----------------------------------------------------------------------------------- names

/// A model's name as device URIs spell it. Two underscores in a row become one before
/// slashes become underscores.
pub open spec fn normal_model(model: Seq<char>) -> Seq<char> {
    let spaced = replaced(model, " "@, "_"@);
    let single = replaced(spaced, "__"@, "_"@);
    let plain = replaced(single, "~"@, ""@);
    let joined = replaced(plain, "/"@, "_"@);
    drop_trailing(drop_leading(joined, '_'), '_')
}

/// A model's name as device URIs spell it.
pub fn normalize_model_name(model: &str) -> (r: String)
    ensures
        r@ == normal_model(model@),
{
    proof {
        reveal_strlit(" ");
        reveal_strlit("__");
        reveal_strlit("~");
        reveal_strlit("/");
    }
    let underscore = text::chars("_");
    let spaced = text::replace(
        text::chars(model).as_slice(),
        text::chars(" ").as_slice(),
        underscore.as_slice(),
    );
    let single = text::replace(
        spaced.as_slice(),
        text::chars("__").as_slice(),
        underscore.as_slice(),
    );
    let plain = text::replace(
        single.as_slice(),
        text::chars("~").as_slice(),
        text::chars("").as_slice(),
    );
    let joined = text::replace(
        plain.as_slice(),
        text::chars("/").as_slice(),
        underscore.as_slice(),
    );
    let inner = text::without_leading(joined.as_slice(), '_');
    text::from_chars(text::without_trailing(inner, '_'))
}

/// The section of `models.dat` for a model.
pub fn model_key(model: &str) -> (r: String)
    ensures
        r@ == lower(normal_model(model@)),
{
    text::lower_text(normalize_model_name(model).as_str())
}

/// The instance part of a record's full name.
pub open spec fn instance_of(r: ServiceRecordView) -> Seq<char> {
    if ends(r.fullname, r.service_type) {
        drop_trailing(r.fullname.take(r.fullname.len() - r.service_type.len()), '.')
    } else {
        r.fullname
    }
}

/// The instance part of a record's full name.
pub fn instance_name(service: &ServiceRecord) -> (r: String)
    ensures
        r@ == instance_of(service@),
{
    let name = text::chars(service.fullname.as_str());
    let suffix = text::chars(service.service_type.as_str());
    if suffix.len() > name.len() {
        return service.fullname.clone();
    }
    let at: usize = name.len() - suffix.len();
    let total: usize = name.len();
    let tail = slice_subrange(name.as_slice(), at, total);
    let front = slice_subrange(name.as_slice(), 0, at);
    proof {
        assert(tail@ =~= name@.skip(at as int));
        assert(front@ =~= name@.take(at as int));
    }
    if text::same_chars(tail, suffix.as_slice()) {
        text::from_chars(text::without_trailing(front, '.'))
    } else {
        service.fullname.clone()
    }
}

/// Whether a manufacturer field names HP.
pub open spec fn hp_vendor(vendor: Seq<char>) -> bool {
    let v = lower(vendor);
    v == "hp"@ || begins(v, "hewlett-packard"@) || begins(v, "hewlett packard"@) || begins(
        v,
        "hewlett_packard"@,
    )
}

/// Whether a manufacturer field names HP.
pub fn is_hp_vendor(vendor: &str) -> (r: bool)
    ensures
        r == hp_vendor(vendor@),
{
    let v = text::lower_text(vendor);
    text::same(v.as_str(), "hp") || text::starts_with(v.as_str(), "hewlett-packard")
        || text::starts_with(v.as_str(), "hewlett packard") || text::starts_with(
        v.as_str(),
        "hewlett_packard",
    )
}

/// What stands before the first space or underscore.
pub open spec fn leading_word(s: Seq<char>) -> Seq<char>
    decreases s.len(),
{
    if s.len() == 0 || s[0] == ' ' || s[0] == '_' {
        seq![]
    } else {
        seq![s[0]] + leading_word(s.skip(1))
    }
}

/// Whether a device name leads with HP.
pub open spec fn hp_device(name: Seq<char>) -> bool {
    hp_vendor(leading_word(trim(name))) || hp_vendor(trim(name))
}

fn first_word(v: &[char]) -> (r: String)
    ensures
        r@ == leading_word(v@),
{
    let mut i: usize = 0;
    assert(v@.skip(0) =~= v@);
    assert(v@.take(0) + leading_word(v@.skip(0)) =~= leading_word(v@));
    while i < v.len() && v[i] != ' ' && v[i] != '_'
        invariant
            i <= v@.len(),
            v@.take(i as int) + leading_word(v@.skip(i as int)) =~= leading_word(v@),
        decreases v@.len() - i,
    {
        assert(v@.skip(i as int).skip(1) =~= v@.skip(i + 1));
        assert(v@.take(i + 1) =~= v@.take(i as int).push(v@[i as int]));
        i = i + 1;
    }
    assert(leading_word(v@.skip(i as int)) =~= seq![]);
    let word = slice_subrange(v, 0, i);
    assert(word@ =~= leading_word(v@));
    text::from_chars(word)
}

/// Whether a device name leads with HP. One that merely mentions HP somewhere does not.
pub fn names_hp_device(name: &str) -> (r: bool)
    ensures
        r == hp_device(name@),
{
    let v = text::chars(name);
    let t = text::trimmed(v.as_slice());
    is_hp_vendor(first_word(t).as_str()) || is_hp_vendor(text::from_chars(t).as_str())
}

/// The last place at which a character stands.
pub open spec fn last_place(s: Seq<char>, x: char) -> Option<int>
    decreases s.len(),
{
    if s.len() == 0 {
        None
    } else if s.last() == x {
        Some(s.len() - 1)
    } else {
        last_place(s.drop_last(), x)
    }
}

/// A name without a tail in square brackets, and without white space behind it.
pub open spec fn unbracketed(name: Seq<char>) -> Seq<char> {
    let n = trim_end(name);
    if n.len() > 0 && n.last() == ']' {
        match last_place(n.drop_last(), '[') {
            Some(i) => trim_end(n.take(i)),
            None => n,
        }
    } else {
        n
    }
}

fn last_position(v: &[char], x: char) -> (r: Option<usize>)
    ensures
        match r {
            Some(i) => last_place(v@, x) == Some(i as int) && i < v@.len(),
            None => last_place(v@, x) is None,
        },
{
    let mut i: usize = v.len();
    assert(v@.take(i as int) =~= v@);
    while i > 0
        invariant
            i <= v@.len(),
            last_place(v@, x) == last_place(v@.take(i as int), x),
        decreases i,
    {
        assert(v@.take(i as int).drop_last() =~= v@.take(i - 1));
        if v[i - 1] == x {
            return Some(i - 1);
        }
        i = i - 1;
    }
    None
}

/// A name without a tail in square brackets.
pub fn without_bracketed_tail(name: &str) -> (r: String)
    ensures
        r@ == unbracketed(name@),
{
    let v = text::chars(name);
    let n = text::trimmed_end(v.as_slice());
    if n.len() > 0 && n[n.len() - 1] == ']' {
        let inner = slice_subrange(n, 0, n.len() - 1);
        assert(inner@ =~= n@.drop_last());
        match last_position(inner, '[') {
            Some(i) => {
                let front = slice_subrange(n, 0, i);
                assert(front@ =~= n@.take(i as int));
                return text::from_chars(text::trimmed_end(front));
            },
            None => {},
        }
    }
    text::from_chars(n)
}

// ---------------------------------------------------------------------------------- claims

/// What a record says of who made the device and what it is.
#[derive(Debug, Clone, PartialEq, Eq)]
pub struct Claims {
    /// The instance part of the record's name.
    pub instance: String,
    /// The manufacturer, where the device states one.
    pub vendor: Option<String>,
    /// The human-readable device name, where there is one.
    pub device_name: Option<String>,
    /// The models that the device states, most specific first.
    pub models: Vec<String>,
}

/// What [`Claims`] say.
pub struct ClaimsView {
    pub instance: Seq<char>,
    pub vendor: Option<Seq<char>>,
    pub device_name: Option<Seq<char>>,
    pub models: Seq<Seq<char>>,
}

impl View for Claims {
    type V = ClaimsView;

    open spec fn view(&self) -> ClaimsView {
        ClaimsView {
            instance: self.instance@,
            vendor: match self.vendor {
                Some(v) => Some(v@),
                None => None,
            },
            device_name: match self.device_name {
                Some(v) => Some(v@),
                None => None,
            },
            models: text::all_texts(self.models@),
        }
    }
}

/// A sequence of what is there.
pub open spec fn there<T>(a: Option<T>) -> Seq<T> {
    match a {
        Some(x) => seq![x],
        None => seq![],
    }
}

/// What a record says of who made the device and what it is.
pub open spec fn claims_of(r: ServiceRecordView) -> ClaimsView {
    ClaimsView {
        instance: instance_of(r),
        vendor: either(txt_value(r.txt, VENDOR_KEY@), txt_value(r.txt, SHORT_VENDOR_KEY@)),
        device_name: txt_value(r.txt, TYPE_KEY@),
        models: there(txt_value(r.txt, MODEL_KEY@)) + there(txt_value(r.txt, SHORT_MODEL_KEY@)),
    }
}

/// What a record says of who made the device and what it is.
pub fn claims(service: &ServiceRecord) -> (r: Claims)
    ensures
        r@ == claims_of(service@),
{
    let vendor = match service.property(VENDOR_KEY) {
        Some(v) => Some(v),
        None => service.property(SHORT_VENDOR_KEY),
    };
    let mut models: Vec<String> = Vec::new();
    match service.property(MODEL_KEY) {
        Some(m) => {
            models.push(m);
        },
        None => {},
    }
    assert(text::all_texts(models@) =~= there(txt_value(service@.txt, MODEL_KEY@)));
    match service.property(SHORT_MODEL_KEY) {
        Some(m) => {
            models.push(m);
        },
        None => {},
    }
    let out = Claims {
        instance: instance_name(service),
        vendor,
        device_name: service.property(TYPE_KEY),
        models,
    };
    assert(out@.models =~= claims_of(service@).models);
    out
}

/// A name that may not be there, as far as it is.
pub open spec fn or_empty(s: Option<Seq<char>>) -> Seq<char> {
    match s {
        Some(x) => x,
        None => ""@,
    }
}

/// Whether a device says that HP made it. A manufacturer that is stated decides; only
/// without one does the device's name.
pub open spec fn claims_hp(c: ClaimsView) -> bool {
    match c.vendor {
        Some(v) => hp_vendor(trim(v)),
        None => hp_device(or_empty(c.device_name)) || hp_device(c.instance),
    }
}

/// Whether a device says that HP made it.
pub fn names_hp(c: &Claims) -> (r: bool)
    ensures
        r == claims_hp(c@),
{
    match &c.vendor {
        Some(v) => {
            return is_hp_vendor(text::trim_text(v.as_str()).as_str());
        },
        None => {},
    }
    let named = match &c.device_name {
        Some(t) => names_hp_device(t.as_str()),
        None => names_hp_device(""),
    };
    named || names_hp_device(c.instance.as_str())
}

/// A model's name with the manufacturer in front.
pub open spec fn spelled(name: Seq<char>) -> Seq<char> {
    if hp_device(trim(name)) {
        trim(name)
    } else {
        "HP "@ + trim(name)
    }
}

/// Candidates with one more, unless it is blank or already there.
pub open spec fn with_candidate(all: Seq<Seq<char>>, candidate: Seq<char>) -> Seq<Seq<char>> {
    if trim(candidate).len() > 0 && !all.contains(trim(candidate)) {
        all.push(trim(candidate))
    } else {
        all
    }
}

/// The candidates that several names give, in order: each without its bracketed tail, and
/// as it is.
pub open spec fn candidates_of(names: Seq<Seq<char>>) -> Seq<Seq<char>>
    decreases names.len(),
{
    if names.len() == 0 {
        seq![]
    } else {
        let name = spelled(names.last());
        with_candidate(
            with_candidate(candidates_of(names.drop_last()), unbracketed(name)),
            name,
        )
    }
}

/// The names that a device goes by, best first.
pub open spec fn device_names(c: ClaimsView) -> Seq<Seq<char>> {
    (seq![or_empty(c.device_name)] + c.models).push(c.instance)
}

fn push_candidate(all: &mut Vec<String>, candidate: &str)
    ensures
        text::all_texts(final(all)@) == with_candidate(text::all_texts(old(all)@), candidate@),
{
    let ghost before = all@;
    let ghost views = text::all_texts(before);
    let name = text::trim_text(candidate);
    if name.as_str().is_empty() {
        return ;
    }
    let mut i: usize = 0;
    while i < all.len()
        invariant
            all@ == before,
            before == old(all)@,
            views == text::all_texts(before),
            name@ == trim(candidate@),
            i <= all@.len(),
            forall|j: int| 0 <= j < i ==> (#[trigger] views[j]) != name@,
        decreases all@.len() - i,
    {
        assert(views[i as int] == all@[i as int]@);
        if text::same(all[i].as_str(), name.as_str()) {
            assert(views.contains(name@));
            return ;
        }
        i = i + 1;
    }
    assert(!views.contains(name@));
    all.push(name);
    assert(text::all_texts(all@) =~= views.push(name@));
}

fn add_name(all: &mut Vec<String>, raw: &str)
    ensures
        text::all_texts(final(all)@) == with_candidate(
            with_candidate(text::all_texts(old(all)@), unbracketed(spelled(raw@))),
            spelled(raw@),
        ),
{
    let bare = text::trim_text(raw);
    let name = if names_hp_device(bare.as_str()) {
        bare
    } else {
        let mut full = "HP ".to_owned();
        full.append(bare.as_str());
        full
    };
    push_candidate(all, without_bracketed_tail(name.as_str()).as_str());
    push_candidate(all, name.as_str());
}

/// The model names to try against `models.dat`, best first.
pub fn model_candidates(c: &Claims) -> (r: Vec<String>)
    ensures
        text::all_texts(r@) == candidates_of(device_names(c@)),
{
    let ghost names = device_names(c@);
    let mut out: Vec<String> = Vec::new();
    assert(text::all_texts(out@) =~= candidates_of(seq![]));
    match &c.device_name {
        Some(t) => {
            add_name(&mut out, t.as_str());
        },
        None => {
            add_name(&mut out, "");
        },
    }
    proof {
        assert(names.take(1).drop_last() =~= seq![]);
        assert(names.take(1).last() == or_empty(c@.device_name));
    }
    let mut i: usize = 0;
    while i < c.models.len()
        invariant
            i <= c.models@.len(),
            names == device_names(c@),
            text::all_texts(out@) == candidates_of(names.take(i + 1)),
        decreases c.models@.len() - i,
    {
        proof {
            assert(names.take(i + 2).drop_last() =~= names.take(i + 1));
            assert(names.take(i + 2).last() == c.models@[i as int]@);
        }
        add_name(&mut out, c.models[i].as_str());
        i = i + 1;
    }
    proof {
        assert(names.drop_last() =~= names.take(i + 1));
        assert(names.last() == c@.instance);
    }
    add_name(&mut out, c.instance.as_str());
    out
}

/// The first candidate whose model scans, in the spelling of device URIs.
pub open spec fn first_scanning(
    candidates: Seq<Seq<char>>,
    models: Map<Seq<char>, ModelInfo>,
) -> Option<Seq<char>>
    decreases candidates.len(),
{
    if candidates.len() == 0 {
        None
    } else {
        match found(models, lower(normal_model(candidates[0]))) {
            Some(info) => if info.scan_type != 0 {
                Some(normal_model(candidates[0]))
            } else {
                first_scanning(candidates.drop_first(), models)
            },
            None => first_scanning(candidates.drop_first(), models),
        }
    }
}

/// The HP model that a device is, where it says that HP made it and `models.dat` says that
/// it scans.
pub open spec fn scan_model(c: ClaimsView, models: Map<Seq<char>, ModelInfo>) -> Option<Seq<char>> {
    if claims_hp(c) {
        first_scanning(candidates_of(device_names(c)), models)
    } else {
        None
    }
}

/// The HP model that a device is, from what it says of itself.
pub fn claimed_scan_model(c: &Claims, models: &Models) -> (r: Option<String>)
    ensures
        match r {
            Some(m) => scan_model(c@, models@) == Some(m@),
            None => scan_model(c@, models@) is None,
        },
{
    if !names_hp(c) {
        return None;
    }
    let candidates = model_candidates(c);
    let ghost all = text::all_texts(candidates@);
    let mut i: usize = 0;
    assert(all.skip(0) =~= all);
    while i < candidates.len()
        invariant
            i <= candidates@.len(),
            all == text::all_texts(candidates@),
            claims_hp(c@),
            all == candidates_of(device_names(c@)),
            first_scanning(all, models@) == first_scanning(all.skip(i as int), models@),
        decreases candidates@.len() - i,
    {
        proof {
            assert(all.skip(i as int)[0] == candidates@[i as int]@);
            assert(all.skip(i as int).drop_first() =~= all.skip(i + 1));
        }
        match models.get(model_key(candidates[i].as_str()).as_str()) {
            Some(info) => {
                if info.scan_type != 0 {
                    return Some(normalize_model_name(candidates[i].as_str()));
                }
            },
            None => {},
        }
        i = i + 1;
    }
    None
}

/// The HP model that a record is for, in the spelling of device URIs, or `None` if it is not
/// an HP scanner.
pub fn hp_scan_model(service: &ServiceRecord, models: &Models) -> (r: Option<String>)
    ensures
        match r {
            Some(m) => scan_model(claims_of(service@), models@) == Some(m@),
            None => scan_model(claims_of(service@), models@) is None,
        },
{
    claimed_scan_model(&claims(service), models)
}

// ------------------------------------------------------------------------------------ laws

/// A manufacturer that a device states is decisive: one that is not HP's is not claimed,
/// whatever the device is called.
pub proof fn law_a_stated_manufacturer_decides(c: ClaimsView, models: Map<Seq<char>, ModelInfo>)
    requires
        c.vendor matches Some(v) && !hp_vendor(trim(v)),
    ensures
        scan_model(c, models) is None,
{
}

/// A model that is claimed stands in the model list, and scans there.
pub proof fn law_a_claimed_model_scans(c: ClaimsView, models: Map<Seq<char>, ModelInfo>)
    requires
        scan_model(c, models) is Some,
    ensures
        found(models, lower(scan_model(c, models)->Some_0)) matches Some(info)
            && info.scan_type != 0,
{
    lemma_first_scanning(candidates_of(device_names(c)), models);
}

proof fn lemma_first_scanning(candidates: Seq<Seq<char>>, models: Map<Seq<char>, ModelInfo>)
    ensures
        first_scanning(candidates, models) matches Some(m) ==> (found(models, lower(m)) matches
            Some(info) && info.scan_type != 0),
    decreases candidates.len(),
{
    if candidates.len() > 0 {
        lemma_first_scanning(candidates.drop_first(), models);
    }
}

/// Without a model list nothing is claimed.
pub proof fn law_no_model_list_no_claim(c: ClaimsView)
    ensures
        scan_model(c, Map::<Seq<char>, ModelInfo>::empty()) is None,
{
    if scan_model(c, Map::<Seq<char>, ModelInfo>::empty()) is Some {
        law_a_claimed_model_scans(c, Map::<Seq<char>, ModelInfo>::empty());
    }
}

/// Nothing that scans is missed: where a device says that HP made it, and any of the names to
/// try stands in the model list with a scan type other than zero, the device is claimed; and
/// it is claimed as the first such name.
pub proof fn law_every_scanning_model_is_claimed(
    c: ClaimsView,
    models: Map<Seq<char>, ModelInfo>,
    i: int,
)
    requires
        claims_hp(c),
        0 <= i < candidates_of(device_names(c)).len(),
        ({
            let key = lower(normal_model(candidates_of(device_names(c))[i]));
            models.dom().contains(key) && models[key].scan_type != 0
        }),
    ensures
        exists|j: int|
            0 <= j <= i && scan_model(c, models) == Some(
                normal_model(#[trigger] candidates_of(device_names(c))[j]),
            ) && (forall|h: int|
                0 <= h < j ==> !models.dom().contains(
                    lower(normal_model(#[trigger] candidates_of(device_names(c))[h])),
                ) || models[lower(normal_model(candidates_of(device_names(c))[h]))].scan_type == 0),
{
    lemma_first_is_first(candidates_of(device_names(c)), models, i);
}

proof fn lemma_first_is_first(
    candidates: Seq<Seq<char>>,
    models: Map<Seq<char>, ModelInfo>,
    i: int,
)
    requires
        0 <= i < candidates.len(),
        models.dom().contains(lower(normal_model(candidates[i]))),
        models[lower(normal_model(candidates[i]))].scan_type != 0,
    ensures
        exists|j: int|
            0 <= j <= i && first_scanning(candidates, models) == Some(
                normal_model(#[trigger] candidates[j]),
            ) && (forall|h: int|
                0 <= h < j ==> !models.dom().contains(lower(normal_model(#[trigger] candidates[h])))
                    || models[lower(normal_model(candidates[h]))].scan_type == 0),
    decreases candidates.len(),
{
    let key = lower(normal_model(candidates[0]));
    if models.dom().contains(key) && models[key].scan_type != 0 {
        assert(first_scanning(candidates, models) == Some(normal_model(candidates[0])));
    } else {
        let rest = candidates.drop_first();
        assert(rest[i - 1] == candidates[i]);
        lemma_first_is_first(rest, models, i - 1);
        let j = choose|j: int|
            0 <= j <= i - 1 && first_scanning(rest, models) == Some(
                normal_model(#[trigger] rest[j]),
            ) && (forall|h: int|
                0 <= h < j ==> !models.dom().contains(lower(normal_model(#[trigger] rest[h])))
                    || models[lower(normal_model(rest[h]))].scan_type == 0);
        assert(candidates[j + 1] == rest[j]);
        assert forall|h: int| 0 <= h < j + 1 implies !models.dom().contains(
            lower(normal_model(#[trigger] candidates[h])),
        ) || models[lower(normal_model(candidates[h]))].scan_type == 0 by {
            if h > 0 {
                assert(rest[h - 1] == candidates[h]);
            }
        }
    }
}

/// A manufacturer field names HP exactly where it says `HP` and nothing else, or begins with
/// one of the three spellings of Hewlett-Packard; capitals or not.
#[verifier::rlimit(40)]
pub proof fn law_who_names_hp(vendor: Seq<char>, name: Seq<char>)
    ensures
        hp_vendor(vendor) <==> (lower(vendor) == "hp"@ || begins(lower(vendor), "hewlett-packard"@)
            || begins(lower(vendor), "hewlett packard"@) || begins(
            lower(vendor),
            "hewlett_packard"@,
        )),
        // A device name does where it leads with one of them as a word of its own.
        hp_device(name) <==> ({
            let t = lower(trim(name));
            ||| begins(t, "hp"@) && (t.len() == 2 || t[2] == ' ' || t[2] == '_')
            ||| begins(t, "hewlett-packard"@)
            ||| begins(t, "hewlett packard"@)
            ||| begins(t, "hewlett_packard"@)
        }),
{
    reveal_strlit("hp");
    reveal_strlit("hewlett-packard");
    reveal_strlit("hewlett packard");
    reveal_strlit("hewlett_packard");
    let s = trim(name);
    let t = lower(s);
    let w = leading_word(s);
    lemma_leading_word(s);
    assert(lower(w) =~= t.take(w.len() as int));
    if lower(w) == "hp"@ {
        assert(t.take(2) =~= "hp"@);
        if t.len() > 2 {
            assert(s[2] == ' ' || s[2] == '_');
            assert(t[2] == s[2]);
        }
    }
    if begins(t, "hp"@) && (t.len() == 2 || t[2] == ' ' || t[2] == '_') {
        assert(t[0] == t.take(2)[0] && t[1] == t.take(2)[1]);
        lemma_lower_keeps(s[0]);
        lemma_lower_keeps(s[1]);
        if t.len() > 2 {
            lemma_lower_keeps(s[2]);
        }
        assert(w.len() == 2);
        assert(lower(w) =~= "hp"@);
    }
    if begins(lower(w), "hewlett-packard"@) {
        assert(t.take(15) =~= lower(w).take(15));
    }
    if begins(lower(w), "hewlett packard"@) {
        assert(t.take(15) =~= lower(w).take(15));
    }
    if begins(lower(w), "hewlett_packard"@) {
        assert(t.take(15) =~= lower(w).take(15));
    }
    if t == "hp"@ {
        assert(t.take(2) =~= t);
    }
}

/// A small letter is neither a space nor an underscore, and either was one before.
proof fn lemma_lower_keeps(c: char)
    ensures
        lower_char(c) == ' ' <==> c == ' ',
        lower_char(c) == '_' <==> c == '_',
{
    if 'A' as u32 <= c as u32 <= 'Z' as u32 {
        let n: u32 = (c as u32 + 32) as u32;
        let d: char = n as char;
        assert(d as u32 == n);
    }
}

proof fn lemma_leading_word(s: Seq<char>)
    ensures
        leading_word(s).len() <= s.len(),
        leading_word(s) == s.take(leading_word(s).len() as int),
        forall|i: int| 0 <= i < leading_word(s).len() ==> s[i] != ' ' && s[i] != '_',
        leading_word(s).len() < s.len() ==> s[leading_word(s).len() as int] == ' '
            || s[leading_word(s).len() as int] == '_',
    decreases s.len(),
{
    let w = leading_word(s);
    if s.len() == 0 || s[0] == ' ' || s[0] == '_' {
        assert(w =~= s.take(0));
    } else {
        let rest = s.skip(1);
        lemma_leading_word(rest);
        let v = leading_word(rest);
        assert(w =~= s.take(w.len() as int)) by {
            assert forall|i: int| 0 <= i < w.len() implies w[i] == s[i] by {
                if i > 0 {
                    assert(w[i] == v[i - 1]);
                    assert(v[i - 1] == rest.take(v.len() as int)[i - 1]);
                }
            }
        }
        assert forall|i: int| 0 <= i < w.len() implies s[i] != ' ' && s[i] != '_' by {
            if i > 0 {
                assert(rest[i - 1] == s[i]);
            }
        }
        if w.len() < s.len() {
            assert(rest[v.len() as int] == s[w.len() as int]);
        }
    }
}

/// Whether a device says that HP made it: by the manufacturer it states, and without one by
/// the name it goes by.
pub proof fn law_the_name_decides_without_a_manufacturer(c: ClaimsView)
    ensures
        c.vendor matches Some(v) ==> (claims_hp(c) <==> hp_vendor(trim(v))),
        c.vendor is None ==> (claims_hp(c) <==> (c.device_name is Some && hp_device(
            c.device_name->Some_0,
        )) || hp_device(c.instance)),
{
    reveal_strlit("");
    law_who_names_hp(""@, ""@);
    reveal_strlit("hp");
    reveal_strlit("hewlett-packard");
    reveal_strlit("hewlett packard");
    reveal_strlit("hewlett_packard");
    assert(trim(""@).len() == 0);
}

/// Whether a text is one of the names to try that a name gives: with the manufacturer put in
/// front where it is not there, as it is or without a tail in square brackets.
pub open spec fn is_spelling_of(candidate: Seq<char>, name: Seq<char>) -> bool {
    let full = if hp_device(trim(name)) {
        trim(name)
    } else {
        "HP "@ + trim(name)
    };
    candidate.len() > 0 && (candidate == trim(full) || candidate == trim(unbracketed(full)))
}

/// The names to try are all the spellings of all the names that a device goes by, and nothing
/// else, each of them once; and those of a name come before those that only a later name
/// gives.
pub proof fn law_every_spelling_is_tried_once(names: Seq<Seq<char>>, candidate: Seq<char>)
    ensures
        candidates_of(names).contains(candidate) <==> exists|i: int|
            0 <= i < names.len() && is_spelling_of(candidate, #[trigger] names[i]),
        candidates_of(names).no_duplicates(),
        names.len() > 0 ==> begins(candidates_of(names), candidates_of(names.drop_last())),
    decreases names.len(),
{
    if names.len() > 0 {
        let front = names.drop_last();
        law_every_spelling_is_tried_once(front, candidate);
        let a = candidates_of(front);
        let name = spelled(names.last());
        let b = with_candidate(a, unbracketed(name));
        let d = with_candidate(b, name);
        lemma_with_candidate(a, unbracketed(name), candidate);
        lemma_with_candidate(b, name, candidate);
        assert(d.take(a.len() as int) =~= a);
        if exists|i: int| 0 <= i < front.len() && is_spelling_of(candidate, #[trigger] front[i]) {
            let i = choose|i: int|
                0 <= i < front.len() && is_spelling_of(candidate, #[trigger] front[i]);
            assert(names[i] == front[i]);
        }
        if exists|i: int| 0 <= i < names.len() && is_spelling_of(candidate, #[trigger] names[i]) {
            let i = choose|i: int|
                0 <= i < names.len() && is_spelling_of(candidate, #[trigger] names[i]);
            if i < front.len() {
                assert(front[i] == names[i]);
            }
        }
        assert(names[names.len() - 1] == names.last());
    }
}

proof fn lemma_with_candidate(all: Seq<Seq<char>>, one: Seq<char>, x: Seq<char>)
    requires
        all.no_duplicates(),
    ensures
        with_candidate(all, one).no_duplicates(),
        with_candidate(all, one).contains(x) <==> all.contains(x) || (x.len() > 0 && x == trim(
            one,
        )),
        with_candidate(all, one).len() >= all.len(),
        with_candidate(all, one).take(all.len() as int) == all,
{
    let more = with_candidate(all, one);
    assert(more.take(all.len() as int) =~= all);
    if trim(one).len() > 0 && !all.contains(trim(one)) {
        assert(more[all.len() as int] == trim(one));
        if all.contains(x) {
            let i = choose|i: int| 0 <= i < all.len() && all[i] == x;
            assert(more[i] == x);
        }
        if more.contains(x) {
            let i = choose|i: int| 0 <= i < more.len() && more[i] == x;
            if i < all.len() {
                assert(all[i] == x);
            }
        }
    }
}

/// The names that a device goes by: first the one it states for people, then the models it
/// states, and last its instance name.
pub proof fn law_the_instance_name_is_the_last_resort(c: ClaimsView)
    ensures
        device_names(c).len() == c.models.len() + 2,
        c.device_name matches Some(n) ==> device_names(c)[0] == n,
        c.device_name is None ==> device_names(c)[0].len() == 0,
        forall|i: int| 0 <= i < c.models.len() ==> device_names(c)[i + 1] == #[trigger] c.models[i],
        device_names(c).last() == c.instance,
{
    reveal_strlit("");
    assert forall|i: int| 0 <= i < c.models.len() implies device_names(c)[i + 1]
        == #[trigger] c.models[i] by {}
}

/// A tail in square brackets is taken off, with the white space in front of it; a name that
/// ends otherwise keeps everything but the white space behind it.
pub proof fn law_only_a_bracketed_tail_is_taken_off(base: Seq<char>, inside: Seq<char>)
    requires
        !inside.contains('['),
    ensures
        unbracketed(base + seq!['['] + inside + seq![']']) == trim_end(base),
        base.len() > 0 && trim_end(base).len() > 0 && trim_end(base).last() != ']' ==> unbracketed(
            base,
        ) == trim_end(base),
{
    let name = base + seq!['['] + inside + seq![']'];
    assert(name.last() == ']');
    assert(trim_end(name) == name);
    let open = name.drop_last();
    assert(open =~= base + (seq!['['] + inside));
    lemma_last_place(base, inside);
    assert(name.take(base.len() as int) =~= base);
}

proof fn lemma_last_place(base: Seq<char>, inside: Seq<char>)
    requires
        !inside.contains('['),
    ensures
        last_place(base + (seq!['['] + inside), '[') == Some(base.len() as int),
    decreases inside.len(),
{
    let s = base + (seq!['['] + inside);
    if inside.len() == 0 {
        assert(s.last() == '[');
    } else {
        assert(s.last() == inside.last());
        assert(inside.contains(inside.last()));
        let less = inside.drop_last();
        assert(!less.contains('[')) by {
            if less.contains('[') {
                let j = less.index_of('[');
                assert(inside[j] == '[');
            }
        }
        assert(s.drop_last() =~= base + (seq!['['] + less));
        lemma_last_place(base, less);
    }
}

/// The instance name is what stands before the dot and the service type.
pub proof fn law_the_instance_stands_before_its_type(
    r: ServiceRecordView,
    instance: Seq<char>,
)
    requires
        r.fullname == instance + seq!['.'] + r.service_type,
        instance.len() > 0 ==> instance.last() != '.',
    ensures
        instance_of(r) == instance,
{
    let n = r.fullname.len() - r.service_type.len();
    assert(r.fullname.skip(n) =~= r.service_type);
    let front = r.fullname.take(n);
    assert(front =~= instance + seq!['.']);
    assert(front.last() == '.');
    assert(front.drop_last() =~= instance);
    reveal_with_fuel(drop_trailing, 3);
}

/// A name in which no two spaces stand together, without an underscore or a tilde, keeps all
/// its characters as device URIs spell it, but for an underscore where a space or a slash was.
#[verifier::rlimit(40)]
pub proof fn law_a_normal_name_spells_the_same_name(model: Seq<char>, i: int)
    requires
        0 <= i < model.len(),
        !model.contains('_') && !model.contains('~'),
        forall|j: int|
            0 <= j < model.len() - 1 ==> !(#[trigger] model[j] == ' ' && model[j + 1] == ' '),
        model[0] != ' ' && model[0] != '/' && model.last() != ' ' && model.last() != '/',
    ensures
        normal_model(model).len() == model.len(),
        model[i] == ' ' || model[i] == '/' ==> normal_model(model)[i] == '_',
        model[i] != ' ' && model[i] != '/' ==> normal_model(model)[i] == model[i],
{
    reveal_strlit(" ");
    reveal_strlit("_");
    reveal_strlit("__");
    reveal_strlit("~");
    reveal_strlit("/");
    reveal_strlit("");
    let spaced = replaced(model, " "@, "_"@);
    assert(" "@ =~= seq![' '] && "_"@ =~= seq!['_'] && "/"@ =~= seq!['/'] && "~"@ =~= seq!['~']);
    lemma_replaced_char(model, ' ', '_');
    assert forall|j: int| !text::occurs_at(spaced, "__"@, j) by {
        if text::occurs_at(spaced, "__"@, j) {
            assert(spaced.subrange(j, j + 2)[0] == spaced[j]);
            assert(spaced.subrange(j, j + 2)[1] == spaced[j + 1]);
            assert("__"@[0] == '_' && "__"@[1] == '_');
            assert(model.contains(model[j]) && model.contains(model[j + 1]));
            assert(model[j] == ' ' && model[j + 1] == ' ');
        }
    }
    text::lemma_find(spaced, "__"@);
    let single = replaced(spaced, "__"@, "_"@);
    assert(single == spaced);
    assert forall|j: int| !text::occurs_at(single, "~"@, j) by {
        if text::occurs_at(single, "~"@, j) {
            assert(single.subrange(j, j + 1)[0] == single[j]);
            assert(model.contains(model[j]));
        }
    }
    text::lemma_find(single, "~"@);
    let plain = replaced(single, "~"@, ""@);
    assert(plain == spaced);
    let joined = replaced(plain, "/"@, "_"@);
    lemma_replaced_char(plain, '/', '_');
    assert(model.contains(model[0]) && model.contains(model.last()));
    assert(joined[0] == model[0] && joined[0] != '_');
    assert(joined.last() == model.last() && joined.last() != '_');
}

proof fn lemma_replaced_char(s: Seq<char>, from: char, to: char)
    ensures
        replaced(s, seq![from], seq![to]).len() == s.len(),
        forall|i: int|
            0 <= i < s.len() ==> #[trigger] replaced(s, seq![from], seq![to])[i] == (if s[i]
                == from {
                to
            } else {
                s[i]
            }),
    decreases s.len(),
{
    let f = seq![from];
    let t = seq![to];
    text::lemma_find(s, f);
    match text::find(s, f) {
        Some(k) => {
            let rest = s.skip(k + 1);
            lemma_replaced_char(rest, from, to);
            let r = replaced(s, f, t);
            assert(r =~= s.take(k) + t + replaced(rest, f, t));
            assert(s.subrange(k, k + 1)[0] == s[k]);
            assert forall|i: int| 0 <= i < s.len() implies #[trigger] r[i] == (if s[i] == from {
                to
            } else {
                s[i]
            }) by {
                if i < k {
                    assert(!text::occurs_at(s, f, i));
                    assert(s.subrange(i, i + 1) =~= seq![s[i]]);
                } else if i > k {
                    assert(rest[i - k - 1] == s[i]);
                }
            }
        },
        None => {
            assert forall|i: int| 0 <= i < s.len() implies s[i] != from by {
                assert(!text::occurs_at(s, f, i));
                assert(s.subrange(i, i + 1) =~= seq![s[i]]);
            }
        },
    }
}

proof fn lemma_replaced_holds(s: Seq<char>, from: Seq<char>, to: Seq<char>, c: char)
    requires
        from.len() > 0,
        replaced(s, from, to).contains(c),
    ensures
        s.contains(c) || to.contains(c),
    decreases s.len(),
{
    text::lemma_find(s, from);
    match text::find(s, from) {
        Some(k) => {
            let rest = s.skip(k + from.len());
            let r = replaced(s, from, to);
            let front = s.take(k);
            assert(r == front + to + replaced(rest, from, to));
            let i = choose|i: int| 0 <= i < r.len() && r[i] == c;
            if i < k {
                assert(s[i] == c);
            } else if i < k + to.len() {
                assert(to[i - k] == c);
            } else {
                assert(replaced(rest, from, to)[i - k - to.len()] == c);
                lemma_replaced_holds(rest, from, to, c);
                if rest.contains(c) {
                    let j = choose|j: int| 0 <= j < rest.len() && rest[j] == c;
                    assert(s[k + from.len() + j] == c);
                }
            }
        },
        None => {},
    }
}

proof fn lemma_replaced_goes(s: Seq<char>, c: char, to: Seq<char>)
    requires
        !to.contains(c),
    ensures
        !replaced(s, seq![c], to).contains(c),
    decreases s.len(),
{
    let f = seq![c];
    let r = replaced(s, f, to);
    text::lemma_find(s, f);
    match text::find(s, f) {
        Some(k) => {
            let rest = s.skip(k + 1);
            lemma_replaced_goes(rest, c, to);
            assert(r == s.take(k) + to + replaced(rest, f, to));
            if r.contains(c) {
                let i = choose|i: int| 0 <= i < r.len() && r[i] == c;
                if i < k {
                    assert(!text::occurs_at(s, f, i));
                    assert(s.subrange(i, i + 1) =~= seq![s[i]]);
                } else if i < k + to.len() {
                    assert(to[i - k] == c);
                } else {
                    assert(replaced(rest, f, to)[i - k - to.len()] == c);
                }
            }
        },
        None => {
            if s.contains(c) {
                let i = choose|i: int| 0 <= i < s.len() && s[i] == c;
                assert(!text::occurs_at(s, f, i));
                assert(s.subrange(i, i + 1) =~= seq![s[i]]);
            }
        },
    }
}

proof fn lemma_dropped(s: Seq<char>, x: char)
    ensures
        drop_leading(s, x).len() > 0 ==> drop_leading(s, x)[0] != x && drop_leading(s, x).last()
            == s.last(),
        drop_trailing(s, x).len() > 0 ==> drop_trailing(s, x).last() != x && drop_trailing(s, x)[0]
            == s[0],
        forall|c: char| drop_leading(s, x).contains(c) ==> s.contains(c),
        forall|c: char| drop_trailing(s, x).contains(c) ==> s.contains(c),
    decreases s.len(),
{
    if s.len() > 0 {
        lemma_dropped(s.drop_first(), x);
        lemma_dropped(s.drop_last(), x);
        assert forall|c: char| drop_leading(s, x).contains(c) implies s.contains(c) by {
            if s[0] == x && s.drop_first().contains(c) {
                let j = choose|j: int| 0 <= j < s.drop_first().len() && s.drop_first()[j] == c;
                assert(s[j + 1] == c);
            }
        }
        assert forall|c: char| drop_trailing(s, x).contains(c) implies s.contains(c) by {
            if s.last() == x && s.drop_last().contains(c) {
                let j = choose|j: int| 0 <= j < s.drop_last().len() && s.drop_last()[j] == c;
                assert(s[j] == c);
            }
        }
    }
}

/// A name as device URIs spell it holds no space, no tilde and no slash, and neither begins
/// nor ends with an underscore.
pub proof fn law_a_normal_name_is_plain(model: Seq<char>)
    ensures
        !normal_model(model).contains(' '),
        !normal_model(model).contains('~'),
        !normal_model(model).contains('/'),
        normal_model(model).len() > 0 ==> normal_model(model)[0] != '_' && normal_model(
            model,
        ).last() != '_',
{
    reveal_strlit(" ");
    reveal_strlit("_");
    reveal_strlit("__");
    reveal_strlit("~");
    reveal_strlit("/");
    reveal_strlit("");
    assert(" "@ =~= seq![' '] && "_"@ =~= seq!['_'] && "/"@ =~= seq!['/'] && "~"@ =~= seq!['~']);
    let spaced = replaced(model, " "@, "_"@);
    let single = replaced(spaced, "__"@, "_"@);
    let plain = replaced(single, "~"@, ""@);
    let joined = replaced(plain, "/"@, "_"@);
    let led = drop_leading(joined, '_');
    lemma_replaced_goes(model, ' ', "_"@);
    if single.contains(' ') {
        lemma_replaced_holds(spaced, "__"@, "_"@, ' ');
    }
    if plain.contains(' ') {
        lemma_replaced_holds(single, "~"@, ""@, ' ');
    }
    if joined.contains(' ') {
        lemma_replaced_holds(plain, "/"@, "_"@, ' ');
    }
    lemma_replaced_goes(single, '~', ""@);
    if joined.contains('~') {
        lemma_replaced_holds(plain, "/"@, "_"@, '~');
    }
    lemma_replaced_goes(plain, '/', "_"@);
    lemma_dropped(joined, '_');
    lemma_dropped(led, '_');
}

/// Whether a name needs nothing but underscores where it has spaces.
pub open spec fn is_spaced_name(model: Seq<char>) -> bool {
    &&& model.len() > 0 && model[0] != ' ' && model.last() != ' '
    &&& !model.contains('_') && !model.contains('~') && !model.contains('/')
    &&& forall|j: int|
        0 <= j < model.len() - 1 ==> !(#[trigger] model[j] == ' ' && model[j + 1] == ' ')
}

/// Two spaces together are one underscore, as one space is.
pub proof fn law_two_spaces_are_one_underscore(a: Seq<char>, b: Seq<char>)
    requires
        is_spaced_name(a),
        is_spaced_name(b),
    ensures
        normal_model(a + seq![' ', ' '] + b) == normal_model(a + seq![' '] + b),
        normal_model(a + seq![' '] + b) == normal_model(a) + seq!['_'] + normal_model(b),
{
    reveal_strlit(" ");
    reveal_strlit("_");
    reveal_strlit("__");
    reveal_strlit("~");
    reveal_strlit("/");
    reveal_strlit("");
    assert(" "@ =~= seq![' '] && "_"@ =~= seq!['_'] && "/"@ =~= seq!['/'] && "~"@ =~= seq!['~']);
    let one = a + seq![' '] + b;
    let two = a + seq![' ', ' '] + b;
    let x = replaced(a, " "@, "_"@);
    let y = replaced(b, " "@, "_"@);
    lemma_replaced_char(a, ' ', '_');
    lemma_replaced_char(b, ' ', '_');
    lemma_replaced_char(one, ' ', '_');
    lemma_replaced_char(two, ' ', '_');
    let s1 = replaced(one, " "@, "_"@);
    let s2 = replaced(two, " "@, "_"@);
    assert(s1 =~= x + seq!['_'] + y);
    assert(s2 =~= x + seq!['_', '_'] + y);
    lemma_no_two(a);
    lemma_no_two(b);
    assert(a.contains(a[0]) && a.contains(a.last()) && b.contains(b[0]) && b.contains(b.last()));
    assert forall|j: int| 0 <= j < a.len() implies !text::occurs_at(s2, "__"@, j) by {
        if text::occurs_at(s2, "__"@, j) {
            assert(s2.subrange(j, j + 2)[0] == s2[j] && s2.subrange(j, j + 2)[1] == s2[j + 1]);
            assert("__"@[0] == '_' && "__"@[1] == '_');
            if j + 1 < a.len() {
                assert(x[j] == '_' && x[j + 1] == '_');
                assert(x.subrange(j, j + 2) =~= "__"@);
                assert(!text::occurs_at(x, "__"@, j));
            } else {
                assert(x[j] == '_');
            }
        }
    }
    assert(s2.subrange(a.len() as int, a.len() as int + 2) =~= "__"@);
    text::lemma_find_is(s2, "__"@, a.len() as int);
    assert(s2.take(a.len() as int) =~= x);
    assert(s2.skip(a.len() as int + 2) =~= y);
    text::lemma_find(y, "__"@);
    assert(replaced(y, "__"@, "_"@) == y);
    assert(replaced(s2, "__"@, "_"@) =~= s1);
    assert forall|j: int| !text::occurs_at(s1, "__"@, j) by {
        if text::occurs_at(s1, "__"@, j) {
            assert(s1.subrange(j, j + 2)[0] == s1[j] && s1.subrange(j, j + 2)[1] == s1[j + 1]);
            assert("__"@[0] == '_' && "__"@[1] == '_');
            if j + 1 < a.len() {
                assert(x[j] == '_' && x[j + 1] == '_');
                assert(x.subrange(j, j + 2) =~= "__"@);
                assert(!text::occurs_at(x, "__"@, j));
            } else if j > a.len() {
                let k = j - a.len() - 1;
                assert(y[k] == '_' && y[k + 1] == '_');
                assert(y.subrange(k, k + 2) =~= "__"@);
                assert(!text::occurs_at(y, "__"@, k));
            } else if j + 1 == a.len() {
                assert(x[j] == '_');
            } else {
                assert(y[0] == '_');
            }
        }
    }
    text::lemma_find(s1, "__"@);
    text::lemma_find(x, "__"@);
    assert(replaced(s1, "__"@, "_"@) == s1);
    assert(replaced(x, "__"@, "_"@) == x);
    lemma_nothing_to_replace(s1, x, y, a, b, '~');
    lemma_nothing_to_replace(s1, x, y, a, b, '/');
    assert(x[0] != '_' && x.last() != '_' && y[0] != '_' && y.last() != '_');
    assert(s1[0] == x[0] && s1.last() == y.last());
}

proof fn lemma_nothing_to_replace(
    s1: Seq<char>,
    x: Seq<char>,
    y: Seq<char>,
    a: Seq<char>,
    b: Seq<char>,
    c: char,
)
    requires
        c != '_',
        c != ' ',
        !a.contains(c),
        !b.contains(c),
        x == replaced(a, seq![' '], seq!['_']),
        y == replaced(b, seq![' '], seq!['_']),
        s1 == x + seq!['_'] + y,
    ensures
        forall|to: Seq<char>| replaced(x, seq![c], to) == x,
        forall|to: Seq<char>| replaced(y, seq![c], to) == y,
        forall|to: Seq<char>| replaced(s1, seq![c], to) == s1,
{
    let f = seq![c];
    lemma_replaced_char(a, ' ', '_');
    lemma_replaced_char(b, ' ', '_');
    assert forall|j: int| !text::occurs_at(x, f, j) by {
        if text::occurs_at(x, f, j) {
            assert(x.subrange(j, j + 1)[0] == x[j]);
            assert(a.contains(a[j]));
        }
    }
    assert forall|j: int| !text::occurs_at(y, f, j) by {
        if text::occurs_at(y, f, j) {
            assert(y.subrange(j, j + 1)[0] == y[j]);
            assert(b.contains(b[j]));
        }
    }
    assert forall|j: int| !text::occurs_at(s1, f, j) by {
        if text::occurs_at(s1, f, j) {
            assert(s1.subrange(j, j + 1)[0] == s1[j]);
            if j < x.len() {
                assert(a.contains(a[j]));
            } else if j > x.len() {
                assert(b.contains(b[j - x.len() - 1]));
            }
        }
    }
    text::lemma_find(x, f);
    text::lemma_find(y, f);
    text::lemma_find(s1, f);
}

proof fn lemma_no_two(a: Seq<char>)
    requires
        is_spaced_name(a),
    ensures
        forall|j: int| !text::occurs_at(replaced(a, seq![' '], seq!['_']), "__"@, j),
{
    reveal_strlit("__");
    lemma_replaced_char(a, ' ', '_');
    let x = replaced(a, seq![' '], seq!['_']);
    assert forall|j: int| !text::occurs_at(x, "__"@, j) by {
        if text::occurs_at(x, "__"@, j) {
            assert(x.subrange(j, j + 2)[0] == x[j] && x.subrange(j, j + 2)[1] == x[j + 1]);
            assert("__"@[0] == '_' && "__"@[1] == '_');
            assert(a.contains(a[j]) && a.contains(a[j + 1]));
            assert(a[j] == ' ' && a[j + 1] == ' ');
        }
    }
}

/// What a record claims, by its TXT keys: the manufacturer under the long key or else the short
/// one, the device's name under the type, and the models under both keys, the long one first.
pub proof fn law_a_record_claims_what_its_keys_say(r: ServiceRecordView)
    ensures
        ({
            let c = claims_of(r);
            let long = txt_value(r.txt, "usb_MDL"@);
            let short = txt_value(r.txt, "mdl"@);
            &&& txt_value(r.txt, "usb_MFG"@) is Some ==> c.vendor == txt_value(r.txt, "usb_MFG"@)
            &&& txt_value(r.txt, "usb_MFG"@) is None ==> c.vendor == txt_value(r.txt, "mfg"@)
            &&& c.device_name == txt_value(r.txt, "ty"@)
            &&& c.instance == instance_of(r)
            &&& long is Some && short is Some ==> c.models =~= seq![long->Some_0, short->Some_0]
            &&& long is Some && short is None ==> c.models =~= seq![long->Some_0]
            &&& long is None && short is Some ==> c.models =~= seq![short->Some_0]
            &&& long is None && short is None ==> c.models.len() == 0
        }),
{
}

} // verus!
