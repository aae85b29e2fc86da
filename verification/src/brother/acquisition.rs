//! Turning "button 2 was pressed" into a `scanimage` command line.
//!
//! Everything here is a function of a sighting, a button assignment and a profile: no
//! socket, no process, no clock. A name outside the vocabulary that a device offers is a
//! failed scan after the user has already walked to the printer, so what is asked for is
//! kept inside what the device advertises.
use vstd::prelude::*;

use crate::model::{dict_get, dict_view, get, ColorMode, ProfileKind, Source, Value, ValueView};
use crate::text;
use crate::text::{decimal, holds, lower, parse_unsigned, trim};

verus! {

/// The resolution asked for when nothing says otherwise.
pub const DEFAULT_RESOLUTION_DPI: u32 = 300;

/// What a sighting says this device can be asked for.
#[derive(Debug, Clone, PartialEq, Eq)]
pub struct EsclDevice {
    /// What `scanimage --device-name` is handed.
    pub device_uri: String,
    pub resolutions: Vec<u32>,
    pub color_modes: Vec<ColorMode>,
    pub sources: Vec<Source>,
}

/// What an [`EsclDevice`] says.
pub struct EsclDeviceView {
    pub device_uri: Seq<char>,
    pub resolutions: Seq<u32>,
    pub color_modes: Seq<ColorMode>,
    pub sources: Seq<Source>,
}

impl View for EsclDevice {
    type V = EsclDeviceView;

    open spec fn view(&self) -> EsclDeviceView {
        EsclDeviceView {
            device_uri: self.device_uri@,
            resolutions: self.resolutions@,
            color_modes: self.color_modes@,
            sources: self.sources@,
        }
    }
}

/// What is assigned to one panel key.
#[derive(Debug, Clone, PartialEq, Eq)]
pub struct ButtonMapping {
    pub profile: ProfileKind,
    /// The options of the button's profile, by key.
    pub options: Vec<(String, Value)>,
}

/// What a [`ButtonMapping`] says.
pub struct ButtonMappingView {
    pub profile: ProfileKind,
    pub options: Seq<(Seq<char>, ValueView)>,
}

impl View for ButtonMapping {
    type V = ButtonMappingView;

    open spec fn view(&self) -> ButtonMappingView {
        ButtonMappingView { profile: self.profile, options: dict_view(self.options@) }
    }
}

/// The `scanimage` invocation that one press turns into.
#[derive(Debug, Clone, PartialEq, Eq)]
pub struct Acquisition {
    /// What every page of the run says its resolution is.
    pub resolution_dpi: u32,
    /// Appended to the fixed arguments.
    pub args: Vec<String>,
}

/// What an [`Acquisition`] says.
pub struct AcquisitionView {
    pub resolution_dpi: u32,
    pub args: Seq<Seq<char>>,
}

impl View for Acquisition {
    type V = AcquisitionView;

    open spec fn view(&self) -> AcquisitionView {
        AcquisitionView { resolution_dpi: self.resolution_dpi, args: text::all_texts(self.args@) }
    }
}

// ------------------------------------------------------------------------------ vocabulary

/// What `scanimage` calls a paper path.
pub open spec fn source_word(source: Source) -> Seq<char> {
    match source {
        Source::Flatbed => "Flatbed"@,
        Source::Adf => "ADF"@,
    }
}

/// What `scanimage` calls a colour mode.
pub open spec fn mode_word(mode: ColorMode) -> Seq<char> {
    match mode {
        ColorMode::Color => "Color"@,
        ColorMode::Gray => "Gray"@,
        ColorMode::Bw => "Lineart"@,
    }
}

/// What `scanimage` calls a paper path.
pub fn source_name(source: Source) -> (r: &'static str)
    ensures
        r@ == source_word(source),
{
    match source {
        Source::Flatbed => "Flatbed",
        Source::Adf => "ADF",
    }
}

/// What `scanimage` calls a colour mode.
pub fn mode_name(mode: ColorMode) -> (r: &'static str)
    ensures
        r@ == mode_word(mode),
{
    match mode {
        ColorMode::Color => "Color",
        ColorMode::Gray => "Gray",
        ColorMode::Bw => "Lineart",
    }
}

// ---------------------------------------------------------------------------------- choices

/// The paper path that a key's profile implies: the feeder for the multi-page one, where the
/// device has a feeder, and the glass otherwise.
pub open spec fn implied_source(profile: Option<ProfileKind>, sources: Seq<Source>) -> Source {
    if profile == Some(ProfileKind::Document) && sources.contains(Source::Adf) {
        Source::Adf
    } else {
        Source::Flatbed
    }
}

/// A choice kept inside what the device advertised. A device that advertises nothing has
/// said nothing, so the choice stands.
pub open spec fn within<T>(wanted: T, advertised: Seq<T>, fallback: T) -> T {
    if advertised.len() == 0 || advertised.contains(wanted) {
        wanted
    } else {
        fallback
    }
}

/// How far two resolutions are apart.
pub open spec fn distance(a: u32, b: u32) -> nat {
    if a >= b {
        (a - b) as nat
    } else {
        (b - a) as nat
    }
}

/// Whether one resolution serves a wish better than another: it is closer, or as close and
/// higher.
pub open spec fn closer(wanted: u32, a: u32, b: u32) -> bool {
    distance(a, wanted) < distance(b, wanted) || distance(a, wanted) == distance(b, wanted) && a
        > b
}

/// The advertised resolution that serves a wish best, or the wish itself where none is
/// advertised.
pub open spec fn nearest(wanted: u32, advertised: Seq<u32>) -> u32
    decreases advertised.len(),
{
    if advertised.len() == 0 {
        wanted
    } else if advertised.len() == 1 {
        advertised[0]
    } else {
        let front = nearest(wanted, advertised.drop_last());
        if closer(wanted, advertised.last(), front) {
            advertised.last()
        } else {
            front
        }
    }
}

/// A text option, trimmed and in small letters.
pub open spec fn text_option(
    options: Option<Seq<(Seq<char>, ValueView)>>,
    key: Seq<char>,
) -> Option<Seq<char>> {
    match options {
        None => None,
        Some(all) => match dict_get(all, key) {
            Some(ValueView::Str(s)) => Some(lower(trim(s))),
            _ => None,
        },
    }
}

/// The paper path that the options ask for.
pub open spec fn wanted_source(options: Option<Seq<(Seq<char>, ValueView)>>) -> Option<Source> {
    match text_option(options, "source"@) {
        None => None,
        Some(s) => if s == "flatbed"@ || s == "platen"@ || s == "glass"@ {
            Some(Source::Flatbed)
        } else if s == "adf"@ || s == "feeder"@ {
            Some(Source::Adf)
        } else {
            None
        },
    }
}

/// The colour mode that the options ask for.
pub open spec fn wanted_mode(options: Option<Seq<(Seq<char>, ValueView)>>) -> Option<ColorMode> {
    match text_option(options, "mode"@) {
        None => None,
        Some(s) => if s == "color"@ || s == "colour"@ || s == "rgb"@ {
            Some(ColorMode::Color)
        } else if s == "gray"@ || s == "grey"@ || s == "grayscale"@ {
            Some(ColorMode::Gray)
        } else if s == "bw"@ || s == "lineart"@ || s == "monochrome"@ {
            Some(ColorMode::Bw)
        } else {
            None
        },
    }
}

/// The resolution that the options ask for.
pub open spec fn wanted_resolution(options: Option<Seq<(Seq<char>, ValueView)>>) -> Option<u32> {
    match options {
        None => None,
        Some(all) => match dict_get(all, "resolution"@) {
            Some(ValueView::U64(n)) => if n <= u32::MAX {
                Some(n as u32)
            } else {
                None
            },
            Some(ValueView::I64(n)) => if 0 <= n <= u32::MAX {
                Some(n as u32)
            } else {
                None
            },
            Some(ValueView::Str(s)) => match parse_unsigned(s, u32::MAX as nat) {
                Some(n) => Some(n as u32),
                None => None,
            },
            _ => None,
        },
    }
}

/// What an option is, or what stands in for it.
pub open spec fn or<T>(a: Option<T>, b: T) -> T {
    match a {
        Some(x) => x,
        None => b,
    }
}

/// The paper path of a run.
pub open spec fn chosen_source(mapping: Option<ButtonMappingView>, device: EsclDeviceView) -> Source {
    let profile = match mapping {
        Some(m) => Some(m.profile),
        None => None,
    };
    within(
        or(wanted_source(options_of(mapping)), implied_source(profile, device.sources)),
        device.sources,
        Source::Flatbed,
    )
}

/// The options of a run.
pub open spec fn options_of(mapping: Option<ButtonMappingView>) -> Option<
    Seq<(Seq<char>, ValueView)>,
> {
    match mapping {
        Some(m) => Some(m.options),
        None => None,
    }
}

/// The colour mode of a run, where the options ask for one.
pub open spec fn chosen_mode(mapping: Option<ButtonMappingView>, device: EsclDeviceView) -> Option<
    ColorMode,
> {
    match wanted_mode(options_of(mapping)) {
        None => None,
        Some(mode) => Some(
            within(
                mode,
                device.color_modes,
                if device.color_modes.len() > 0 {
                    device.color_modes[0]
                } else {
                    mode
                },
            ),
        ),
    }
}

/// The resolution of a run.
pub open spec fn chosen_resolution(
    mapping: Option<ButtonMappingView>,
    device: EsclDeviceView,
) -> u32 {
    nearest(
        or(wanted_resolution(options_of(mapping)), DEFAULT_RESOLUTION_DPI),
        device.resolutions,
    )
}

/// The command line for one press.
pub open spec fn acquisition_of(
    mapping: Option<ButtonMappingView>,
    device: EsclDeviceView,
) -> AcquisitionView {
    let source = chosen_source(mapping, device);
    let resolution = chosen_resolution(mapping, device);
    let fixed = seq![
        "--source="@ + source_word(source),
        "--resolution="@ + decimal(resolution as nat),
    ];
    let with_mode = match chosen_mode(mapping, device) {
        Some(mode) => fixed.push("--mode="@ + mode_word(mode)),
        None => fixed,
    };
    AcquisitionView {
        resolution_dpi: resolution,
        args: if source == Source::Flatbed {
            with_mode.push("--batch-count=1"@)
        } else {
            with_mode
        },
    }
}

/// The paper path that a profile implies when nothing was asked for explicitly.
pub fn default_source(profile: Option<ProfileKind>, device: &EsclDevice) -> (r: Source)
    ensures
        r == implied_source(profile, device@.sources),
{
    match profile {
        Some(ProfileKind::Document) => if has_source(&device.sources, Source::Adf) {
            Source::Adf
        } else {
            Source::Flatbed
        },
        _ => Source::Flatbed,
    }
}

fn has_source(all: &Vec<Source>, x: Source) -> (r: bool)
    ensures
        r == all@.contains(x),
{
    let mut i: usize = 0;
    while i < all.len()
        invariant
            i <= all@.len(),
            forall|j: int| 0 <= j < i ==> all@[j] != x,
        decreases all@.len() - i,
    {
        if all[i] == x {
            assert(all@[i as int] == x);
            return true;
        }
        i = i + 1;
    }
    false
}

fn has_mode(all: &Vec<ColorMode>, x: ColorMode) -> (r: bool)
    ensures
        r == all@.contains(x),
{
    let mut i: usize = 0;
    while i < all.len()
        invariant
            i <= all@.len(),
            forall|j: int| 0 <= j < i ==> all@[j] != x,
        decreases all@.len() - i,
    {
        if all[i] == x {
            assert(all@[i as int] == x);
            return true;
        }
        i = i + 1;
    }
    false
}

/// A paper path kept inside what the device advertised.
pub fn offered_source(wanted: Source, advertised: &Vec<Source>, fallback: Source) -> (r: Source)
    ensures
        r == within(wanted, advertised@, fallback),
{
    if advertised.len() == 0 || has_source(advertised, wanted) {
        wanted
    } else {
        fallback
    }
}

/// A colour mode kept inside what the device advertised.
pub fn offered_mode(wanted: ColorMode, advertised: &Vec<ColorMode>, fallback: ColorMode) -> (r:
    ColorMode)
    ensures
        r == within(wanted, advertised@, fallback),
{
    if advertised.len() == 0 || has_mode(advertised, wanted) {
        wanted
    } else {
        fallback
    }
}

fn gap(a: u32, b: u32) -> (r: u32)
    ensures
        r == distance(a, b),
{
    if a >= b {
        a - b
    } else {
        b - a
    }
}

/// The advertised resolution closest to what was asked for; of two that are as close, the
/// higher.
pub fn nearest_resolution(wanted: u32, advertised: &[u32]) -> (r: u32)
    ensures
        r == nearest(wanted, advertised@),
{
    if advertised.len() == 0 {
        return wanted;
    }
    let mut best: u32 = advertised[0];
    let mut i: usize = 1;
    assert(advertised@.take(1)[0] == advertised@[0]);
    while i < advertised.len()
        invariant
            1 <= i <= advertised@.len(),
            best == nearest(wanted, advertised@.take(i as int)),
        decreases advertised@.len() - i,
    {
        let one: u32 = advertised[i];
        let near: u32 = gap(one, wanted);
        let far: u32 = gap(best, wanted);
        proof {
            assert(advertised@.take(i + 1).drop_last() =~= advertised@.take(i as int));
            assert(advertised@.take(i + 1).last() == one);
        }
        if near < far || near == far && one > best {
            best = one;
        }
        i = i + 1;
    }
    assert(advertised@.take(i as int) =~= advertised@);
    best
}

/// What the options of a mapping say, where there is one.
pub open spec fn entries_of(options: Option<&Vec<(String, Value)>>) -> Option<
    Seq<(Seq<char>, ValueView)>,
> {
    match options {
        Some(all) => Some(dict_view(all@)),
        None => None,
    }
}

/// A text option, trimmed and in small letters.
pub fn option_str(options: Option<&Vec<(String, Value)>>, key: &str) -> (r: Option<String>)
    ensures
        match r {
            Some(s) => text_option(entries_of(options), key@) == Some(s@),
            None => text_option(entries_of(options), key@) is None,
        },
{
    match options {
        None => None,
        Some(all) => match get(all, key) {
            Some(Value::Str(s)) => {
                let v = text::chars(s.as_str());
                Some(text::from_chars(text::lowered(text::trimmed(v.as_slice())).as_slice()))
            },
            _ => None,
        },
    }
}

/// The paper path that the options ask for.
pub fn requested_source(options: Option<&Vec<(String, Value)>>) -> (r: Option<Source>)
    ensures
        r == wanted_source(entries_of(options)),
{
    match option_str(options, "source") {
        None => None,
        Some(s) => if text::same(s.as_str(), "flatbed") || text::same(s.as_str(), "platen")
            || text::same(s.as_str(), "glass") {
            Some(Source::Flatbed)
        } else if text::same(s.as_str(), "adf") || text::same(s.as_str(), "feeder") {
            Some(Source::Adf)
        } else {
            None
        },
    }
}

/// The colour mode that the options ask for.
pub fn requested_mode(options: Option<&Vec<(String, Value)>>) -> (r: Option<ColorMode>)
    ensures
        r == wanted_mode(entries_of(options)),
{
    match option_str(options, "mode") {
        None => None,
        Some(s) => if text::same(s.as_str(), "color") || text::same(s.as_str(), "colour")
            || text::same(s.as_str(), "rgb") {
            Some(ColorMode::Color)
        } else if text::same(s.as_str(), "gray") || text::same(s.as_str(), "grey") || text::same(
            s.as_str(),
            "grayscale",
        ) {
            Some(ColorMode::Gray)
        } else if text::same(s.as_str(), "bw") || text::same(s.as_str(), "lineart") || text::same(
            s.as_str(),
            "monochrome",
        ) {
            Some(ColorMode::Bw)
        } else {
            None
        },
    }
}

/// The resolution that the options ask for.
pub fn requested_resolution(options: Option<&Vec<(String, Value)>>) -> (r: Option<u32>)
    ensures
        r == wanted_resolution(entries_of(options)),
{
    match options {
        None => None,
        Some(all) => match get(all, "resolution") {
            Some(Value::U64(n)) => if *n <= 0xffff_ffff {
                Some(*n as u32)
            } else {
                None
            },
            Some(Value::I64(n)) => if 0 <= *n && *n <= 0xffff_ffff {
                Some(*n as u32)
            } else {
                None
            },
            Some(Value::Str(s)) => match text::parse_number(s.as_str(), 0xffff_ffff) {
                Some(n) => Some(n as u32),
                None => None,
            },
            _ => None,
        },
    }
}

fn labelled(label: &str, value: &str) -> (r: String)
    ensures
        r@ == label@ + value@,
{
    let mut out = label.to_owned();
    out.append(value);
    out
}

/// What a mapping says, where there is one.
pub open spec fn mapping_view(mapping: Option<&ButtonMapping>) -> Option<ButtonMappingView> {
    match mapping {
        Some(m) => Some(m@),
        None => None,
    }
}

/// The command line for one press. A key to which nothing is assigned gets the device's
/// own defaults.
pub fn scanimage_args(mapping: Option<&ButtonMapping>, device: &EsclDevice) -> (r: Acquisition)
    ensures
        r@ == acquisition_of(mapping_view(mapping), device@),
{
    let options = match mapping {
        Some(m) => Some(&m.options),
        None => None,
    };
    let profile = match mapping {
        Some(m) => Some(m.profile),
        None => None,
    };
    assert(entries_of(options) == options_of(mapping_view(mapping)));

    let asked = match requested_source(options) {
        Some(source) => source,
        None => default_source(profile, device),
    };
    let source = offered_source(asked, &device.sources, Source::Flatbed);

    let mode = match requested_mode(options) {
        Some(mode) => {
            let fallback = if device.color_modes.len() > 0 {
                device.color_modes[0]
            } else {
                mode
            };
            Some(offered_mode(mode, &device.color_modes, fallback))
        },
        None => None,
    };

    let wish: u32 = match requested_resolution(options) {
        Some(dpi) => dpi,
        None => DEFAULT_RESOLUTION_DPI,
    };
    let resolution: u32 = nearest_resolution(wish, device.resolutions.as_slice());

    let mut args: Vec<String> = Vec::new();
    args.push(labelled("--source=", source_name(source)));
    args.push(labelled("--resolution=", text::decimal_text(resolution as u64).as_str()));
    let ghost fixed = seq![
        "--source="@ + source_word(source),
        "--resolution="@ + decimal(resolution as nat),
    ];
    assert(text::all_texts(args@) =~= fixed);
    match mode {
        Some(mode) => {
            let ghost before = args@;
            args.push(labelled("--mode=", mode_name(mode)));
            assert(text::all_texts(args@) =~= text::all_texts(before).push(
                "--mode="@ + mode_word(mode),
            ));
        },
        None => {},
    }
    if source == Source::Flatbed {
        let ghost before = args@;
        args.push("--batch-count=1".to_owned());
        assert(text::all_texts(args@) =~= text::all_texts(before).push("--batch-count=1"@));
    }
    Acquisition { resolution_dpi: resolution, args }
}

// ----------------------------------------------------------------------------- descriptions

/// The paper paths that a device description names, if it names any.
pub open spec fn described_sources(description: Seq<char>) -> Option<Seq<Source>> {
    let d = lower(description);
    let glass = holds(d, "platen"@) || holds(d, "flatbed"@);
    let feeder = holds(d, "adf"@) || holds(d, "feeder"@);
    if glass && feeder {
        Some(seq![Source::Flatbed, Source::Adf])
    } else if glass {
        Some(seq![Source::Flatbed])
    } else if feeder {
        Some(seq![Source::Adf])
    } else {
        None
    }
}

/// The paper paths that a device description names. `None` where it names none: that the
/// description is silent is not that the device has no paper path.
pub fn sources_from_description(description: &str) -> (r: Option<Vec<Source>>)
    ensures
        match r {
            Some(v) => described_sources(description@) == Some(v@),
            None => described_sources(description@) is None,
        },
{
    let d = text::lower_text(description);
    let mut sources: Vec<Source> = Vec::new();
    if text::contains(d.as_str(), "platen") || text::contains(d.as_str(), "flatbed") {
        sources.push(Source::Flatbed);
    }
    if text::contains(d.as_str(), "adf") || text::contains(d.as_str(), "feeder") {
        sources.push(Source::Adf);
    }
    proof {
        match described_sources(description@) {
            Some(s) => {
                assert(sources@ =~= s);
            },
            None => {},
        }
    }
    if sources.len() == 0 {
        None
    } else {
        Some(sources)
    }
}

// ------------------------------------------------------------------------------------ laws

/// The resolution asked for is one that the device advertises, no advertised one is closer
/// to the wish, and of two that are as close it is the higher.
pub proof fn law_nearest_is_nearest(wanted: u32, advertised: Seq<u32>, other: u32)
    requires
        advertised.contains(other),
    ensures
        advertised.contains(nearest(wanted, advertised)),
        nearest(wanted, advertised) == other || closer(
            wanted,
            nearest(wanted, advertised),
            other,
        ),
    decreases advertised.len(),
{
    if advertised.len() == 1 {
        assert(advertised[0] == other);
    } else {
        let front = advertised.drop_last();
        let i = choose|i: int| 0 <= i < advertised.len() && advertised[i] == other;
        assert(front[0] == advertised[0]);
        assert(front.contains(front[0]));
        law_nearest_is_nearest(wanted, front, front[0]);
        let best = nearest(wanted, front);
        let j = choose|j: int| 0 <= j < front.len() && front[j] == best;
        assert(advertised[j] == best);
        assert(advertised[advertised.len() - 1] == advertised.last());
        if i < front.len() {
            assert(front[i] == other);
            law_nearest_is_nearest(wanted, front, other);
        }
    }
}

/// Nothing that the device does not advertise is asked for, wherever it advertises anything:
/// not a resolution, not a colour mode, and no paper path but the glass.
pub proof fn law_only_offered_choices_are_sent(
    mapping: Option<ButtonMappingView>,
    device: EsclDeviceView,
)
    ensures
        device.resolutions.len() > 0 ==> device.resolutions.contains(
            chosen_resolution(mapping, device),
        ),
        device.color_modes.len() > 0 && chosen_mode(mapping, device) is Some
            ==> device.color_modes.contains(chosen_mode(mapping, device)->Some_0),
        device.sources.len() > 0 ==> device.sources.contains(chosen_source(mapping, device))
            || chosen_source(mapping, device) == Source::Flatbed,
{
    if device.resolutions.len() > 0 {
        assert(device.resolutions.contains(device.resolutions[0]));
        law_nearest_is_nearest(
            or(wanted_resolution(options_of(mapping)), DEFAULT_RESOLUTION_DPI),
            device.resolutions,
            device.resolutions[0],
        );
    }
    if device.color_modes.len() > 0 {
        assert(device.color_modes.contains(device.color_modes[0]));
    }
}

/// A run from the glass is one sheet, and only such a run is counted.
pub proof fn law_only_the_glass_is_counted(
    mapping: Option<ButtonMappingView>,
    device: EsclDeviceView,
)
    ensures
        acquisition_of(mapping, device).args.contains("--batch-count=1"@) <==> chosen_source(
            mapping,
            device,
        ) == Source::Flatbed,
{
    reveal_strlit("--batch-count=1");
    reveal_strlit("--source=");
    reveal_strlit("--resolution=");
    reveal_strlit("--mode=");
    let count = "--batch-count=1"@;
    let args = acquisition_of(mapping, device).args;
    assert(args[0][2] == 's');
    assert(args[1][2] == 'r');
    assert(count[2] == 'b');
    if chosen_source(mapping, device) == Source::Flatbed {
        assert(args[args.len() - 1] == count);
    } else {
        if args.contains(count) {
            let i = choose|i: int| 0 <= i < args.len() && args[i] == count;
            if i == 2 {
                assert(args[2][2] == 'm');
            }
        }
    }
}

/// Whether the options of a key hold a text under a name that says a word, white space around
/// it and the case of its letters apart.
pub open spec fn says(
    mapping: Option<ButtonMappingView>,
    name: Seq<char>,
    word: Seq<char>,
) -> bool {
    mapping matches Some(m) && dict_get(m.options, name) matches Some(ValueView::Str(s)) && lower(
        trim(s),
    ) == word
}

/// What is asked for by name is what is scanned from. The options come first: a feeder that
/// they name is used wherever the device advertises it or advertises nothing, whatever the
/// profile, and the glass that they name always is. Only where they name neither does the
/// profile decide: a document comes from a feeder that the device advertises, everything else
/// from the glass.
pub proof fn law_the_paper_path_is_the_one_asked_for(
    mapping: Option<ButtonMappingView>,
    device: EsclDeviceView,
)
    ensures
        ({
            let feeder = says(mapping, "source"@, "adf"@) || says(mapping, "source"@, "feeder"@);
            let glass = says(mapping, "source"@, "flatbed"@) || says(mapping, "source"@, "platen"@)
                || says(mapping, "source"@, "glass"@);
            let document = mapping matches Some(m) && m.profile == ProfileKind::Document;
            let first = acquisition_of(mapping, device).args[0];
            &&& feeder && (device.sources.len() == 0 || device.sources.contains(Source::Adf))
                ==> first == "--source="@ + "ADF"@
            &&& feeder && device.sources.len() > 0 && !device.sources.contains(Source::Adf)
                ==> first == "--source="@ + "Flatbed"@
            &&& glass ==> first == "--source="@ + "Flatbed"@
            &&& !feeder && !glass && document && device.sources.contains(Source::Adf) ==> first
                == "--source="@ + "ADF"@
            &&& !feeder && !glass && !(document && device.sources.contains(Source::Adf)) ==> first
                == "--source="@ + "Flatbed"@
        }),
{
    reveal_strlit("adf");
    reveal_strlit("feeder");
    reveal_strlit("flatbed");
    reveal_strlit("platen");
    reveal_strlit("glass");
    assert("adf"@[0] == 'a' && "feeder"@[1] == 'e' && "flatbed"@[1] == 'l' && "platen"@[0] == 'p'
        && "glass"@[0] == 'g' && "feeder"@[0] == 'f' && "flatbed"@[0] == 'f');
}

/// A colour mode is sent exactly where the options name one, behind the resolution: the one
/// named, where the device advertises it or advertises nothing, and else the first that the
/// device advertises.
#[verifier::rlimit(40)]
pub proof fn law_the_colour_mode_is_the_one_asked_for(
    mapping: Option<ButtonMappingView>,
    device: EsclDeviceView,
)
    ensures
        ({
            let color = says(mapping, "mode"@, "color"@) || says(mapping, "mode"@, "colour"@)
                || says(mapping, "mode"@, "rgb"@);
            let gray = says(mapping, "mode"@, "gray"@) || says(mapping, "mode"@, "grey"@) || says(
                mapping,
                "mode"@,
                "grayscale"@,
            );
            let bw = says(mapping, "mode"@, "bw"@) || says(mapping, "mode"@, "lineart"@) || says(
                mapping,
                "mode"@,
                "monochrome"@,
            );
            let modes = device.color_modes;
            let args = acquisition_of(mapping, device).args;
            let flatbed = args[0] == "--source="@ + "Flatbed"@;
            let sent = if flatbed {
                args.len() == 4
            } else {
                args.len() == 3
            };
            &&& args.len() >= 2
            &&& !color && !gray && !bw ==> args.len() == if flatbed {
                3int
            } else {
                2int
            }
            &&& color || gray || bw ==> sent
            &&& color && (modes.len() == 0 || modes.contains(ColorMode::Color)) ==> args[2]
                == "--mode="@ + "Color"@
            &&& gray && (modes.len() == 0 || modes.contains(ColorMode::Gray)) ==> args[2]
                == "--mode="@ + "Gray"@
            &&& bw && (modes.len() == 0 || modes.contains(ColorMode::Bw)) ==> args[2] == "--mode="@
                + "Lineart"@
            &&& (color && modes.len() > 0 && !modes.contains(ColorMode::Color)) || (gray
                && modes.len() > 0 && !modes.contains(ColorMode::Gray)) || (bw && modes.len() > 0
                && !modes.contains(ColorMode::Bw)) ==> args[2] == "--mode="@ + match modes[0] {
                ColorMode::Color => "Color"@,
                ColorMode::Gray => "Gray"@,
                ColorMode::Bw => "Lineart"@,
            }
            &&& flatbed ==> args.last() == "--batch-count=1"@
        }),
{
    reveal_strlit("color");
    reveal_strlit("colour");
    reveal_strlit("rgb");
    reveal_strlit("gray");
    reveal_strlit("grey");
    reveal_strlit("grayscale");
    reveal_strlit("bw");
    reveal_strlit("lineart");
    reveal_strlit("monochrome");
    assert("color"@[0] == 'c' && "colour"@[0] == 'c' && "rgb"@[0] == 'r' && "gray"@[0] == 'g'
        && "grey"@[0] == 'g' && "grayscale"@[0] == 'g' && "bw"@[0] == 'b' && "lineart"@[0] == 'l'
        && "monochrome"@[0] == 'm');
    reveal_strlit("Flatbed");
    reveal_strlit("ADF");
    reveal_strlit("--source=");
    let args = acquisition_of(mapping, device).args;
    assert(("--source="@ + "ADF"@).len() == 12);
    assert(("--source="@ + "Flatbed"@).len() == 16);
    lemma_chosen_source_is_first(mapping, device);
}

proof fn lemma_chosen_source_is_first(mapping: Option<ButtonMappingView>, device: EsclDeviceView)
    ensures
        chosen_source(mapping, device) == Source::Flatbed <==> acquisition_of(
            mapping,
            device,
        ).args[0] == "--source="@ + "Flatbed"@,
{
    reveal_strlit("Flatbed");
    reveal_strlit("ADF");
    reveal_strlit("--source=");
    assert(("--source="@ + "ADF"@).len() == 12);
    assert(("--source="@ + "Flatbed"@).len() == 16);
}

/// The resolution that is sent is the one that the pages say: the one asked for, as a number
/// or written in digits, and 300 where none is, as far as the device advertises it or
/// advertises nothing; and else an advertised one than which no other is closer, the higher
/// of two that are as close.
pub proof fn law_the_resolution_is_the_one_asked_for(
    mapping: Option<ButtonMappingView>,
    device: EsclDeviceView,
    wish: u32,
    other: u32,
)
    requires
        match mapping {
            None => wish == 300,
            Some(m) => match dict_get(m.options, "resolution"@) {
                Some(ValueView::U64(n)) => wish == n || n > u32::MAX && wish == 300,
                Some(ValueView::I64(n)) => wish == n || (n < 0 || n > u32::MAX) && wish == 300,
                Some(ValueView::Str(s)) => match parse_unsigned(s, u32::MAX as nat) {
                    Some(n) => wish == n,
                    None => wish == 300,
                },
                _ => wish == 300,
            },
        },
    ensures
        ({
            let sent = acquisition_of(mapping, device);
            let dpi = sent.resolution_dpi;
            let far = |r: u32| if r >= wish { r - wish } else { wish - r };
            &&& sent.args[1] == "--resolution="@ + decimal(dpi as nat)
            &&& device.resolutions.len() == 0 || device.resolutions.contains(wish) ==> dpi == wish
            &&& device.resolutions.len() > 0 ==> device.resolutions.contains(dpi)
            &&& device.resolutions.contains(other) ==> far(dpi) <= far(other) && (far(dpi) == far(
                other,
            ) ==> dpi >= other)
        }),
{
    if device.resolutions.contains(wish) {
        law_nearest_is_nearest(wish, device.resolutions, wish);
    }
    if device.resolutions.contains(other) {
        law_nearest_is_nearest(wish, device.resolutions, other);
    }
    if device.resolutions.len() > 0 {
        assert(device.resolutions.contains(device.resolutions[0]));
        law_nearest_is_nearest(wish, device.resolutions, device.resolutions[0]);
    }
}

/// A paper path is read off a description exactly where the description names it, in capitals
/// or not: the glass as `platen` or `flatbed`, the feeder as `adf` or `feeder`, the glass
/// first. A description that names neither says nothing.
pub proof fn law_a_description_names_its_paper_paths(description: Seq<char>)
    ensures
        ({
            let d = lower(description);
            let glass = holds(d, "platen"@) || holds(d, "flatbed"@);
            let feeder = holds(d, "adf"@) || holds(d, "feeder"@);
            match described_sources(description) {
                None => !glass && !feeder,
                Some(sources) => {
                    &&& glass || feeder
                    &&& sources.contains(Source::Flatbed) <==> glass
                    &&& sources.contains(Source::Adf) <==> feeder
                    &&& sources.len() == if glass && feeder {
                        2int
                    } else {
                        1int
                    }
                    &&& glass ==> sources[0] == Source::Flatbed
                },
            }
        }),
{
    match described_sources(description) {
        Some(sources) => {
            if sources.len() == 2 {
                assert(sources[0] == Source::Flatbed && sources[1] == Source::Adf);
            } else {
                assert(sources[0] == Source::Flatbed || sources[0] == Source::Adf);
            }
        },
        None => {},
    }
}

} // verus!
