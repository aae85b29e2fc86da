//! The Brother backend's decisions: what discovery finds, what stands between a scanner and
//! its use, what is remembered of a device, and which scan a press asks for.
use vstd::prelude::*;

use crate::brother::acquisition::{
    acquisition_of, mapping_view, scanimage_args, ButtonMapping, ButtonMappingView, EsclDevice,
    EsclDeviceView,
};
use crate::brother::discovery::{
    all_identified, device_in, device_ipv4, escl_device, ipv4_of, note_of, scanners_from_sightings,
    sighted_scanners, InstalledState, Presence, ScanToPc, ScanToPcView, SCANNER_ID_BACKEND,
};
use crate::brother::listener::{bind_error_text, BindError, BindErrorView, Press, PressView};
use crate::brother::registrar::{
    registrar_error_text, RegistrarError, RegistrarErrorView,
};
use crate::brother::sightings::{
    parse_scanimage_output, sightings_in, usb_endpoint, usb_in,
};
use crate::brother::ID;
use crate::keyed::{found, Keyed};
use crate::model::{
    backend_error_text, command_output, copy_entries, dict_view, exit_description, exit_text,
    output_text, scanner_id, scanner_views, BackendError, BackendErrorView, CommandRun,
    PairingProgress, PairingProgressView, ProfileKind, ScannerId, ScannerInfo, ScannerInfoView,
    Value, NO_ADDRESS,
};
use crate::net::Ipv4Addr;
use crate::scanimage::{ScanimageConfig, DEFAULT_SCANIMAGE_HELPER};
use crate::skey::function::Function;
use crate::text;
use crate::text::{begins, decimal, lines, trim};

verus! {

/// How the one dependency is installed, named in every message that it is not.
pub const AIRSCAN_INSTALL_HINT: &'static str = "apt install sane-airscan";

// --------------------------------------------------------------------------------- packages

/// What several words say.
pub open spec fn words(v: Seq<&'static str>) -> Seq<Seq<char>> {
    v.map_values(|s: &'static str| s@)
}

/// A package whose presence is worth asking about.
#[derive(Debug, Clone, Copy, PartialEq, Eq, Structural)]
pub enum PackageProbe {
    /// What acquisition needs.
    Airscan,
    /// What normally holds the listener's port where it is installed. Nothing needs it.
    BrscanSkey,
}

impl PackageProbe {
    /// The name of a package.
    pub open spec fn name(self) -> Seq<char> {
        match self {
            PackageProbe::Airscan => "sane-airscan"@,
            PackageProbe::BrscanSkey => "brscan-skey"@,
        }
    }

    /// The name of this package.
    pub fn package(self) -> (r: &'static str)
        ensures
            r@ == self.name(),
    {
        match self {
            PackageProbe::Airscan => "sane-airscan",
            PackageProbe::BrscanSkey => "brscan-skey",
        }
    }

    /// Paths that only exist when a package's files are on disk.
    pub open spec fn known_files(self) -> Seq<Seq<char>> {
        match self {
            PackageProbe::Airscan => seq![
                "/usr/lib/x86_64-linux-gnu/sane/libsane-airscan.so.1"@,
                "/usr/lib/aarch64-linux-gnu/sane/libsane-airscan.so.1"@,
                "/usr/lib64/sane/libsane-airscan.so.1"@,
                "/usr/lib/sane/libsane-airscan.so.1"@,
            ],
            PackageProbe::BrscanSkey => seq![
                "/usr/bin/brscan-skey"@,
                "/opt/brother/scanner/brscan-skey"@,
            ],
        }
    }

    /// The arguments with which `dpkg-query` says whether a package is installed.
    pub open spec fn status_words(self) -> Seq<Seq<char>> {
        seq!["-W"@, "-f=${db:Status-Status}\\n"@, self.name()]
    }

    /// The arguments with which `dpkg-query` lists the files of a package.
    pub open spec fn list_words(self) -> Seq<Seq<char>> {
        seq!["-L"@, self.name()]
    }

    /// Paths that only exist when the package's files are on disk.
    pub fn files(self) -> (r: Vec<&'static str>)
        ensures
            words(r@) == self.known_files(),
    {
        let out: Vec<&'static str> = match self {
            PackageProbe::Airscan => vec![
                "/usr/lib/x86_64-linux-gnu/sane/libsane-airscan.so.1",
                "/usr/lib/aarch64-linux-gnu/sane/libsane-airscan.so.1",
                "/usr/lib64/sane/libsane-airscan.so.1",
                "/usr/lib/sane/libsane-airscan.so.1",
            ],
            PackageProbe::BrscanSkey => vec![
                "/usr/bin/brscan-skey",
                "/opt/brother/scanner/brscan-skey",
            ],
        };
        assert(words(out@) =~= self.known_files());
        out
    }

    /// The arguments with which `dpkg-query` says whether this package is installed.
    pub fn status_arguments(self) -> (r: Vec<&'static str>)
        ensures
            words(r@) == self.status_words(),
    {
        let out: Vec<&'static str> = vec!["-W", "-f=${db:Status-Status}\\n", self.package()];
        assert(words(out@) =~= self.status_words());
        out
    }

    /// The arguments with which `dpkg-query` lists the files of this package.
    pub fn list_arguments(self) -> (r: Vec<&'static str>)
        ensures
            words(r@) == self.list_words(),
    {
        let out: Vec<&'static str> = vec!["-L", self.package()];
        assert(words(out@) =~= self.list_words());
        out
    }
}

/// Whether `dpkg-query -W` says that a package is installed, or why it could not be asked.
pub open spec fn registered(package: Seq<char>, run: CommandRun) -> Result<bool, Seq<char>> {
    match run {
        CommandRun::NotRun(reason) => Err(
            "failed to run dpkg-query for "@ + package + ": "@ + reason@,
        ),
        CommandRun::Exited { success, stdout, .. } => Ok(
            success && trim(text::lossy(stdout@)) == "installed"@,
        ),
    }
}

/// Whether the packaging system considers a package installed.
pub fn package_registered(probe: PackageProbe, run: &CommandRun) -> (r: Result<bool, BackendError>)
    ensures
        match registered(probe.name(), *run) {
            Ok(b) => r matches Ok(x) && x == b,
            Err(e) => r matches Err(x) && x@ == BackendErrorView::Other(e),
        },
{
    match run {
        CommandRun::NotRun(reason) => {
            let mut out = "failed to run dpkg-query for ".to_owned();
            out.append(probe.package());
            out.append(": ");
            out.append(reason.as_str());
            Err(BackendError::Other(out))
        },
        CommandRun::Exited { success, stdout, .. } => if *success {
            let said = text::lossy_text(stdout.as_slice());
            Ok(text::same(text::trim_text(said.as_str()).as_str(), "installed"))
        } else {
            Ok(false)
        },
    }
}

/// The paths among lines.
pub open spec fn paths_in(all: Seq<Seq<char>>) -> Seq<Seq<char>>
    decreases all.len(),
{
    if all.len() == 0 {
        seq![]
    } else {
        let front = paths_in(all.drop_last());
        if begins(trim(all.last()), "/"@) {
            front.push(trim(all.last()))
        } else {
            front
        }
    }
}

/// The paths in a listing.
pub fn listed_paths(listing: &str) -> (r: Vec<String>)
    ensures
        text::all_texts(r@) == paths_in(lines(listing@)),
{
    let rows = text::all_lines(listing);
    let ghost all = text::all_views(rows@);
    let mut out: Vec<String> = Vec::new();
    let mut i: usize = 0;
    assert(all.take(0) =~= Seq::<Seq<char>>::empty());
    assert(text::all_texts(out@) =~= seq![]);
    while i < rows.len()
        invariant
            i <= rows@.len(),
            all == text::all_views(rows@),
            text::all_texts(out@) == paths_in(all.take(i as int)),
        decreases rows@.len() - i,
    {
        let ghost before = out@;
        proof {
            assert(all.take(i + 1).last() == rows@[i as int]@);
            assert(all.take(i + 1).drop_last() =~= all.take(i as int));
        }
        let line = text::from_chars(text::trimmed(rows[i].as_slice()));
        if text::starts_with(line.as_str(), "/") {
            let ghost said = line@;
            out.push(line);
            assert(text::all_texts(out@) =~= text::all_texts(before).push(said));
        }
        i = i + 1;
    }
    assert(all.take(i as int) =~= all);
    out
}

/// The paths that `dpkg-query -L` lists, or why it could not be asked.
pub open spec fn owned(package: Seq<char>, run: CommandRun) -> Result<Seq<Seq<char>>, Seq<char>> {
    match run {
        CommandRun::NotRun(reason) => Err(
            "failed to list the files of "@ + package + " with dpkg-query: "@ + reason@,
        ),
        CommandRun::Exited { success, stdout, .. } => if success {
            Ok(paths_in(lines(text::lossy(stdout@))))
        } else {
            Ok(seq![])
        },
    }
}

/// The paths that a package claims to own.
pub fn package_files(probe: PackageProbe, run: &CommandRun) -> (r: Result<
    Vec<String>,
    BackendError,
>)
    ensures
        match owned(probe.name(), *run) {
            Ok(paths) => r matches Ok(x) && text::all_texts(x@) == paths,
            Err(e) => r matches Err(x) && x@ == BackendErrorView::Other(e),
        },
{
    match run {
        CommandRun::NotRun(reason) => {
            let mut out = "failed to list the files of ".to_owned();
            out.append(probe.package());
            out.append(" with dpkg-query: ");
            out.append(reason.as_str());
            Err(BackendError::Other(out))
        },
        CommandRun::Exited { success, stdout, .. } => if *success {
            Ok(listed_paths(text::lossy_text(stdout.as_slice()).as_str()))
        } else {
            let none: Vec<String> = Vec::new();
            assert(text::all_texts(none@) =~= seq![]);
            Ok(none)
        },
    }
}

/// What is known of a package on this machine, as far as it was looked for.
#[derive(Debug)]
pub enum Evidence {
    /// One of the files that tell is there.
    KnownFile,
    /// None of them is, and there is no `dpkg-query`.
    NoTool,
    /// None of them is, and `dpkg-query`, asked for the package, does not say that it is
    /// installed.
    Unregistered { status: CommandRun },
    /// It was asked for the package's own files too; whether one of them is there.
    Listed { status: CommandRun, listing: CommandRun, file_present: bool },
}

/// What a package's evidence comes to, or why it could not be had.
pub open spec fn presence_of(package: Seq<char>, evidence: Evidence) -> Result<
    Presence,
    Seq<char>,
> {
    match evidence {
        Evidence::KnownFile => Ok(Presence::Present),
        Evidence::NoTool => Ok(Presence::Absent),
        Evidence::Unregistered { status } => match registered(package, status) {
            Err(e) => Err(e),
            Ok(_) => Ok(Presence::Absent),
        },
        Evidence::Listed { status, listing, file_present } => match registered(package, status) {
            Err(e) => Err(e),
            Ok(false) => Ok(Presence::Absent),
            Ok(true) => match owned(package, listing) {
                Err(e) => Err(e),
                Ok(_) => Ok(
                    if file_present {
                        Presence::Present
                    } else {
                        Presence::RegisteredButMissing
                    },
                ),
            },
        },
    }
}

/// What a package's evidence comes to. Files count before the packaging system: what is on
/// disk can be used, whatever that says.
pub fn package_presence(probe: PackageProbe, evidence: &Evidence) -> (r: Result<
    Presence,
    BackendError,
>)
    ensures
        match presence_of(probe.name(), *evidence) {
            Ok(p) => r matches Ok(x) && x == p,
            Err(e) => r matches Err(x) && x@ == BackendErrorView::Other(e),
        },
{
    match evidence {
        Evidence::KnownFile => Ok(Presence::Present),
        Evidence::NoTool => Ok(Presence::Absent),
        Evidence::Unregistered { status } => match package_registered(probe, status) {
            Err(error) => Err(error),
            Ok(_) => Ok(Presence::Absent),
        },
        Evidence::Listed { status, listing, file_present } => match package_registered(
            probe,
            status,
        ) {
            Err(error) => Err(error),
            Ok(known) => if !known {
                Ok(Presence::Absent)
            } else {
                match package_files(probe, listing) {
                    Err(error) => Err(error),
                    Ok(_) => if *file_present {
                        Ok(Presence::Present)
                    } else {
                        Ok(Presence::RegisteredButMissing)
                    },
                }
            },
        },
    }
}

/// What is to be found out about a package next.
#[derive(Debug)]
pub enum Question {
    /// Whether one of these paths exists.
    AnyExists(Vec<&'static str>),
    /// Whether there is a `dpkg-query`.
    HasTool,
    /// What comes of running it with these arguments.
    Run(Vec<&'static str>),
    /// Whether one of these paths is a file.
    AnyFile(Vec<String>),
}

/// What a [`Question`] says.
pub enum QuestionView {
    AnyExists(Seq<Seq<char>>),
    HasTool,
    Run(Seq<Seq<char>>),
    AnyFile(Seq<Seq<char>>),
}

impl View for Question {
    type V = QuestionView;

    open spec fn view(&self) -> QuestionView {
        match *self {
            Question::AnyExists(paths) => QuestionView::AnyExists(words(paths@)),
            Question::HasTool => QuestionView::HasTool,
            Question::Run(arguments) => QuestionView::Run(words(arguments@)),
            Question::AnyFile(paths) => QuestionView::AnyFile(text::all_texts(paths@)),
        }
    }
}

/// What was found out.
#[derive(Debug)]
pub enum Reply {
    Is(bool),
    Ran(CommandRun),
}

/// How far the evidence about a package has been gathered.
#[derive(Debug)]
pub enum Gathered {
    /// Nothing is known yet.
    Nothing,
    /// None of the files that are looked for first is there.
    NoKnownFile,
    /// There is a `dpkg-query`.
    Tool,
    /// It says that the package is installed.
    Registered { status: CommandRun },
    /// It was asked for the package's files.
    Files { status: CommandRun, listing: CommandRun },
}

/// The gathering of evidence about a package. No more is asked than is needed: a file that is
/// there ends it, and so does a package that is not registered.
#[derive(Debug)]
pub struct Inquiry {
    pub probe: PackageProbe,
    pub gathered: Gathered,
}

/// What follows a reply.
#[derive(Debug)]
pub enum Inquired {
    /// There is more to find out.
    More(Inquiry),
    /// This is the evidence.
    Found(Evidence),
}

/// The paths that the files of a package are at, where a listing says them.
pub open spec fn listed(package: Seq<char>, listing: CommandRun) -> Seq<Seq<char>> {
    match owned(package, listing) {
        Ok(paths) => paths,
        Err(_) => seq![],
    }
}

/// What is to be found out next.
pub open spec fn question_of(i: Inquiry) -> QuestionView {
    match i.gathered {
        Gathered::Nothing => QuestionView::AnyExists(i.probe.known_files()),
        Gathered::NoKnownFile => QuestionView::HasTool,
        Gathered::Tool => QuestionView::Run(i.probe.status_words()),
        Gathered::Registered { .. } => QuestionView::Run(i.probe.list_words()),
        Gathered::Files { listing, .. } => QuestionView::AnyFile(listed(i.probe.name(), listing)),
    }
}

/// What follows a reply. One that does not answer the question leaves it open.
pub open spec fn told(i: Inquiry, reply: Reply) -> Inquired {
    match (i.gathered, reply) {
        (Gathered::Nothing, Reply::Is(there)) => if there {
            Inquired::Found(Evidence::KnownFile)
        } else {
            Inquired::More(Inquiry { gathered: Gathered::NoKnownFile, ..i })
        },
        (Gathered::NoKnownFile, Reply::Is(there)) => if there {
            Inquired::More(Inquiry { gathered: Gathered::Tool, ..i })
        } else {
            Inquired::Found(Evidence::NoTool)
        },
        (Gathered::Tool, Reply::Ran(status)) => if registered(i.probe.name(), status) == Ok::<
            bool,
            Seq<char>,
        >(true) {
            Inquired::More(Inquiry { gathered: Gathered::Registered { status }, ..i })
        } else {
            Inquired::Found(Evidence::Unregistered { status })
        },
        (Gathered::Registered { status }, Reply::Ran(listing)) => Inquired::More(
            Inquiry { gathered: Gathered::Files { status, listing }, ..i },
        ),
        (Gathered::Files { status, listing }, Reply::Is(there)) => Inquired::Found(
            Evidence::Listed { status, listing, file_present: there },
        ),
        _ => Inquired::More(i),
    }
}

impl Inquiry {
    /// The gathering of evidence about a package, from the start.
    pub fn new(probe: PackageProbe) -> (r: Self)
        ensures
            r == (Inquiry { probe, gathered: Gathered::Nothing }),
    {
        Inquiry { probe, gathered: Gathered::Nothing }
    }

    /// What is to be found out next.
    pub fn question(&self) -> (r: Question)
        ensures
            r@ == question_of(*self),
    {
        match &self.gathered {
            Gathered::Nothing => Question::AnyExists(self.probe.files()),
            Gathered::NoKnownFile => Question::HasTool,
            Gathered::Tool => Question::Run(self.probe.status_arguments()),
            Gathered::Registered { .. } => Question::Run(self.probe.list_arguments()),
            Gathered::Files { listing, .. } => match package_files(self.probe, listing) {
                Ok(paths) => Question::AnyFile(paths),
                Err(_) => {
                    let none: Vec<String> = Vec::new();
                    assert(text::all_texts(none@) =~= seq![]);
                    Question::AnyFile(none)
                },
            },
        }
    }

    /// What follows a reply.
    pub fn answer(self, reply: Reply) -> (r: Inquired)
        ensures
            r == told(self, reply),
    {
        let probe = self.probe;
        match (self.gathered, reply) {
            (Gathered::Nothing, Reply::Is(there)) => if there {
                Inquired::Found(Evidence::KnownFile)
            } else {
                Inquired::More(Inquiry { probe, gathered: Gathered::NoKnownFile })
            },
            (Gathered::NoKnownFile, Reply::Is(there)) => if there {
                Inquired::More(Inquiry { probe, gathered: Gathered::Tool })
            } else {
                Inquired::Found(Evidence::NoTool)
            },
            (Gathered::Tool, Reply::Ran(status)) => {
                let known = match package_registered(probe, &status) {
                    Ok(known) => known,
                    Err(_) => false,
                };
                if known {
                    Inquired::More(Inquiry { probe, gathered: Gathered::Registered { status } })
                } else {
                    Inquired::Found(Evidence::Unregistered { status })
                }
            },
            (Gathered::Registered { status }, Reply::Ran(listing)) => Inquired::More(
                Inquiry { probe, gathered: Gathered::Files { status, listing } },
            ),
            (Gathered::Files { status, listing }, Reply::Is(there)) => Inquired::Found(
                Evidence::Listed { status, listing, file_present: there },
            ),
            (gathered, _) => Inquired::More(Inquiry { probe, gathered }),
        }
    }
}

/// What a client is told about a package it has to install itself.
pub open spec fn package_detail(package: Seq<char>, presence: Presence) -> Seq<char> {
    match presence {
        Presence::Present => package + " is installed"@,
        Presence::RegisteredButMissing => package
            + " is registered as installed but none of its files are on disk; reinstall it with `"@
            + AIRSCAN_INSTALL_HINT@
            + " --reinstall` and pair again — scanbus does not install it"@,
        Presence::Absent => package
            + " is not installed; scanbus acquires Brother scans over eSCL and needs it. Run `"@
            + AIRSCAN_INSTALL_HINT@ + "` and pair again — scanbus does not install it"@,
    }
}

/// What a client is told about a package it has to install itself.
pub fn missing_package_detail(probe: PackageProbe, presence: Presence) -> (r: String)
    ensures
        r@ == package_detail(probe.name(), presence),
{
    let mut out = probe.package().to_owned();
    match presence {
        Presence::Present => {
            out.append(" is installed");
        },
        Presence::RegisteredButMissing => {
            out.append(
                " is registered as installed but none of its files are on disk; reinstall it with `",
            );
            out.append(AIRSCAN_INSTALL_HINT);
            out.append(" --reinstall` and pair again — scanbus does not install it");
        },
        Presence::Absent => {
            out.append(
                " is not installed; scanbus acquires Brother scans over eSCL and needs it. Run `",
            );
            out.append(AIRSCAN_INSTALL_HINT);
            out.append("` and pair again — scanbus does not install it");
        },
    }
    out
}

// ---------------------------------------------------------------------------------- pairing

/// What stands between a package and its use, if anything does.
pub open spec fn package_obstacle(package: Seq<char>, evidence: Evidence) -> Option<
    BackendErrorView,
> {
    match presence_of(package, evidence) {
        Err(e) => Some(BackendErrorView::Other(e)),
        Ok(Presence::Present) => None,
        Ok(presence) => Some(
            BackendErrorView::InstallFailed { package, detail: package_detail(package, presence) },
        ),
    }
}

/// What is said of a device that was not seen over eSCL.
pub open spec fn no_escl_detail(name: Seq<char>) -> Seq<char> {
    name
        + " was found, but not over eSCL: scanbus acquires Brother scans through sane-airscan and this device offered no eSCL interface to discovery. Check that `"@
        + AIRSCAN_INSTALL_HINT@
        + "` has been run, that the scanner has network scanning enabled, and rediscover — scanbus no longer uses brscan4/brscan5"@
}

/// What stands between a scanner and its use, if anything does.
pub open spec fn pairing_obstacle(scanner: ScannerInfoView, airscan: Evidence) -> Option<
    BackendErrorView,
> {
    match package_obstacle(PackageProbe::Airscan.name(), airscan) {
        Some(e) => Some(e),
        None => if device_in(scanner) is Some {
            None
        } else {
            Some(
                BackendErrorView::InstallFailed {
                    package: PackageProbe::Airscan.name(),
                    detail: no_escl_detail(scanner.name),
                },
            )
        },
    }
}

/// What is reported before a package is looked for.
pub fn installing(probe: PackageProbe) -> (r: PairingProgress)
    ensures
        r@ == (PairingProgressView::Installing { package: probe.name(), percent: None }),
{
    PairingProgress::Installing { package: probe.package().to_owned(), percent: None }
}

/// One dependency step: refuse if the package cannot be used.
pub fn check_dependency(probe: PackageProbe, evidence: &Evidence) -> (r: Result<(), BackendError>)
    ensures
        match package_obstacle(probe.name(), *evidence) {
            Some(e) => r matches Err(x) && x@ == e,
            None => r is Ok,
        },
{
    match package_presence(probe, evidence) {
        Err(error) => Err(error),
        Ok(presence) => if presence.is_usable() {
            Ok(())
        } else {
            Err(
                BackendError::InstallFailed {
                    package: probe.package().to_owned(),
                    detail: missing_package_detail(probe, presence),
                },
            )
        },
    }
}

/// That discovery found an eSCL way in to this device.
pub fn check_escl_device(scanner: &ScannerInfo) -> (r: Result<(), BackendError>)
    ensures
        match r {
            Ok(()) => device_in(scanner@) is Some,
            Err(e) => device_in(scanner@) is None && e@ == (BackendErrorView::InstallFailed {
                package: PackageProbe::Airscan.name(),
                detail: no_escl_detail(scanner@.name),
            }),
        },
{
    if escl_device(scanner).is_some() {
        return Ok(());
    }
    let mut detail = scanner.name.clone();
    detail.append(
        " was found, but not over eSCL: scanbus acquires Brother scans through sane-airscan and this device offered no eSCL interface to discovery. Check that `",
    );
    detail.append(AIRSCAN_INSTALL_HINT);
    detail.append(
        "` has been run, that the scanner has network scanning enabled, and rediscover — scanbus no longer uses brscan4/brscan5",
    );
    Err(
        BackendError::InstallFailed {
            package: PackageProbe::Airscan.package().to_owned(),
            detail,
        },
    )
}

/// `sane-airscan`, and then that this device actually offers eSCL.
pub fn check_dependencies(scanner: &ScannerInfo, airscan: &Evidence) -> (r: Result<
    (),
    BackendError,
>)
    ensures
        match pairing_obstacle(scanner@, *airscan) {
            Some(e) => r matches Err(x) && x@ == e,
            None => r is Ok,
        },
{
    match check_dependency(PackageProbe::Airscan, airscan) {
        Err(error) => Err(error),
        Ok(()) => check_escl_device(scanner),
    }
}

/// What is reported when a scanner's needs begin to be checked.
pub fn checking(scanner: &ScannerInfo) -> (r: PairingProgress)
    ensures
        r@ == (PairingProgressView::Checking {
            message: "checking Brother dependencies for "@ + scanner@.name,
        }),
{
    let mut message = "checking Brother dependencies for ".to_owned();
    message.append(scanner.name.as_str());
    PairingProgress::Checking { message }
}

/// What is reported when a scanner's needs have been checked, and what the check says. On
/// success the device is still to be asked about scan-to-PC, before this is reported.
pub fn ensure_installed(scanner: &ScannerInfo, airscan: &Evidence) -> (r: (
    PairingProgress,
    Result<(), BackendError>,
))
    ensures
        match pairing_obstacle(scanner@, *airscan) {
            Some(e) => r.1 matches Err(x) && x@ == e && r.0@ == (PairingProgressView::Failed {
                message: backend_error_text(e),
            }),
            None => r.1 is Ok && r.0@ == PairingProgressView::Ready,
        },
{
    match check_dependencies(scanner, airscan) {
        Ok(()) => (PairingProgress::Ready, Ok(())),
        Err(error) => (PairingProgress::Failed { message: error.to_text() }, Err(error)),
    }
}

// --------------------------------------------------------------------------------- listening

/// Why a taken port is not shared.
pub open spec fn not_shared(port: u16) -> Seq<char> {
    "scanbus will not share UDP/"@ + decimal(port as nat)
        + ": the kernel would hand each panel press to one of the two processes at random, so every other press would go missing. This scanner stays discovered and can still be scanned from the host; only its panel keys are unavailable."@
}

/// What is said of a port that already has an owner.
pub open spec fn taken_text(port: u16, skey: Presence) -> Seq<char> {
    if skey == Presence::Present {
        "UDP/"@ + decimal(port as nat)
            + " is already bound, and brscan-skey is installed on this machine, which is what holds it. Stop it with `brscan-skey -t`, keep whatever launches it from starting it again, and connect this scanner again. "@
            + not_shared(port)
    } else {
        "UDP/"@ + decimal(port as nat)
            + " is already bound by another process. brscan-skey is what normally holds that port and does not appear to be installed here, so run `ss -lunp | grep "@
            + decimal(port as nat) + "` to see what does. "@ + not_shared(port)
    }
}

/// What to tell the user when the listener's port already has an owner, from whether
/// `brscan-skey` is there.
pub fn port_taken(port: u16, skey: Presence) -> (r: String)
    ensures
        r@ == taken_text(port, skey),
{
    let number = text::decimal_text(port as u64);
    let mut shared = "scanbus will not share UDP/".to_owned();
    shared.append(number.as_str());
    shared.append(
        ": the kernel would hand each panel press to one of the two processes at random, so every other press would go missing. This scanner stays discovered and can still be scanned from the host; only its panel keys are unavailable.",
    );
    let mut out = "UDP/".to_owned();
    out.append(number.as_str());
    if skey.is_usable() {
        out.append(
            " is already bound, and brscan-skey is installed on this machine, which is what holds it. Stop it with `brscan-skey -t`, keep whatever launches it from starting it again, and connect this scanner again. ",
        );
    } else {
        out.append(
            " is already bound by another process. brscan-skey is what normally holds that port and does not appear to be installed here, so run `ss -lunp | grep ",
        );
        out.append(number.as_str());
        out.append("` to see what does. ");
    }
    out.append(shared.as_str());
    out
}

/// The error that a scanner is not connected with when its socket could not be opened.
pub open spec fn listening_error(
    scanner: Seq<char>,
    error: BindErrorView,
    skey: Presence,
) -> BackendErrorView {
    match error {
        BindErrorView::Taken { port } => BackendErrorView::Other(taken_text(port, skey)),
        BindErrorView::Io { .. } => BackendErrorView::Other(
            "scanner "@ + scanner + ": "@ + bind_error_text(error)
                + "; its panel keys are unavailable until the socket can be opened, and it can still be scanned from the host"@,
        ),
    }
}

/// The error that a scanner is not connected with when its socket could not be opened. A
/// package check that failed counts as `brscan-skey` not being there.
pub fn bind_refused(scanner: &ScannerId, error: BindError, skey: Presence) -> (r: BackendError)
    ensures
        r@ == listening_error(scanner@, error@, skey),
{
    let said = error.to_text();
    match error {
        BindError::Taken { port } => BackendError::Other(port_taken(port, skey)),
        BindError::Io { .. } => {
            let mut out = "scanner ".to_owned();
            out.append(scanner.as_str());
            out.append(": ");
            out.append(said.as_str());
            out.append(
                "; its panel keys are unavailable until the socket can be opened, and it can still be scanned from the host",
            );
            BackendError::Other(out)
        },
    }
}

// -------------------------------------------------------------------------- button mappings

/// What is assigned to the panel keys, per key and scanner.
#[derive(Debug)]
pub struct Buttons {
    pub file: Keyed<ButtonMapping>,
    pub image: Keyed<ButtonMapping>,
    pub ocr: Keyed<ButtonMapping>,
    pub email: Keyed<ButtonMapping>,
}

/// What is assigned to the panel keys, per key and scanner.
pub struct ButtonsView {
    pub file: Map<Seq<char>, ButtonMappingView>,
    pub image: Map<Seq<char>, ButtonMappingView>,
    pub ocr: Map<Seq<char>, ButtonMappingView>,
    pub email: Map<Seq<char>, ButtonMappingView>,
}

/// What a map of mappings says.
pub open spec fn mapping_views(m: Map<Seq<char>, ButtonMapping>) -> Map<
    Seq<char>,
    ButtonMappingView,
> {
    m.map_values(|b: ButtonMapping| b@)
}

impl View for Buttons {
    type V = ButtonsView;

    open spec fn view(&self) -> ButtonsView {
        ButtonsView {
            file: mapping_views(self.file@),
            image: mapping_views(self.image@),
            ocr: mapping_views(self.ocr@),
            email: mapping_views(self.email@),
        }
    }
}

impl ButtonsView {
    /// What is assigned to one key, per scanner.
    pub open spec fn of(self, f: Function) -> Map<Seq<char>, ButtonMappingView> {
        match f {
            Function::File => self.file,
            Function::Image => self.image,
            Function::Ocr => self.ocr,
            Function::Email => self.email,
        }
    }

    /// The same with what is assigned to one key replaced.
    pub open spec fn with(self, f: Function, m: Map<Seq<char>, ButtonMappingView>) -> ButtonsView {
        match f {
            Function::File => ButtonsView { file: m, ..self },
            Function::Image => ButtonsView { image: m, ..self },
            Function::Ocr => ButtonsView { ocr: m, ..self },
            Function::Email => ButtonsView { email: m, ..self },
        }
    }
}

/// What is assigned to a key of a scanner, where something is.
pub open spec fn assigned(b: ButtonsView, scanner: Seq<char>, f: Function) -> Option<
    ButtonMappingView,
> {
    found(b.of(f), scanner)
}

/// The assignments with that of one key of a scanner replaced, or removed.
pub open spec fn reassigned(
    b: ButtonsView,
    scanner: Seq<char>,
    f: Function,
    mapping: Option<ButtonMappingView>,
) -> ButtonsView {
    match mapping {
        Some(m) => b.with(f, b.of(f).insert(scanner, m)),
        None => b.with(f, b.of(f).remove(scanner)),
    }
}

fn assign(map: &mut Keyed<ButtonMapping>, scanner: &ScannerId, mapping: Option<ButtonMapping>)
    ensures
        mapping_views(final(map)@) == (match mapping {
            Some(m) => mapping_views(old(map)@).insert(scanner@, m@),
            None => mapping_views(old(map)@).remove(scanner@),
        }),
{
    let ghost before = map@;
    match mapping {
        Some(m) => {
            let ghost said = m;
            map.insert(scanner.as_str().to_owned(), m);
            assert(mapping_views(map@) =~= mapping_views(before).insert(scanner@, said@));
        },
        None => {
            map.remove(scanner.as_str());
            assert(mapping_views(map@) =~= mapping_views(before).remove(scanner@));
        },
    }
}

// ------------------------------------------------------------------------------ the backend

/// Walk-up Brother backend backed by `scanimage -L` and local package checks: what it has to
/// remember between calls.
#[derive(Debug)]
pub struct BrotherBackend {
    pub scanimage_path: String,
    /// The packaged wrapper that acquisition runs.
    pub scanimage_helper_path: String,
    pub dpkg_query_path: String,
    /// What every probed path is resolved against.
    pub sysroot: String,
    /// What each device answered when it was asked whether it does scan-to-PC.
    pub scan_to_pc: Keyed<ScanToPc>,
    /// The eSCL device that each scanner is acquired from, as discovery last saw it.
    pub escl: Keyed<EsclDevice>,
    /// What is assigned to each panel key.
    pub buttons: Buttons,
}

/// What a [`BrotherBackend`] remembers.
pub struct BrotherView {
    pub scanimage_path: Seq<char>,
    pub scanimage_helper_path: Seq<char>,
    pub dpkg_query_path: Seq<char>,
    pub sysroot: Seq<char>,
    /// What each device answered about scan-to-PC.
    pub notes: Map<Seq<char>, ScanToPc>,
    /// The eSCL device that each scanner is acquired from, as discovery last saw it.
    pub devices: Map<Seq<char>, EsclDeviceView>,
    /// What is assigned to each panel key.
    pub buttons: ButtonsView,
}

/// What a map of devices says.
pub open spec fn device_views(m: Map<Seq<char>, EsclDevice>) -> Map<Seq<char>, EsclDeviceView> {
    m.map_values(|d: EsclDevice| d@)
}

impl View for BrotherBackend {
    type V = BrotherView;

    open spec fn view(&self) -> BrotherView {
        BrotherView {
            scanimage_path: self.scanimage_path@,
            scanimage_helper_path: self.scanimage_helper_path@,
            dpkg_query_path: self.dpkg_query_path@,
            sysroot: self.sysroot@,
            notes: self.scan_to_pc@,
            devices: device_views(self.escl@),
            buttons: self.buttons@,
        }
    }
}

/// Assignments of which there are none.
pub open spec fn no_buttons() -> ButtonsView {
    ButtonsView {
        file: Map::empty(),
        image: Map::empty(),
        ocr: Map::empty(),
        email: Map::empty(),
    }
}

impl Default for BrotherBackend {
    fn default() -> (r: Self)
        ensures
            r@ == (BrotherView {
                scanimage_path: "/usr/bin/scanimage"@,
                scanimage_helper_path: DEFAULT_SCANIMAGE_HELPER@,
                dpkg_query_path: "/usr/bin/dpkg-query"@,
                sysroot: "/"@,
                notes: Map::empty(),
                devices: Map::empty(),
                buttons: no_buttons(),
            }),
    {
        let r = BrotherBackend {
            scanimage_path: "/usr/bin/scanimage".to_owned(),
            scanimage_helper_path: DEFAULT_SCANIMAGE_HELPER.to_owned(),
            dpkg_query_path: "/usr/bin/dpkg-query".to_owned(),
            sysroot: "/".to_owned(),
            scan_to_pc: Keyed::new(),
            escl: Keyed::new(),
            buttons: Buttons {
                file: Keyed::new(),
                image: Keyed::new(),
                ocr: Keyed::new(),
                email: Keyed::new(),
            },
        };
        proof {
            assert(r@.devices =~= Map::<Seq<char>, EsclDeviceView>::empty());
            assert(r@.buttons.file =~= Map::<Seq<char>, ButtonMappingView>::empty());
            assert(r@.buttons.image =~= Map::<Seq<char>, ButtonMappingView>::empty());
            assert(r@.buttons.ocr =~= Map::<Seq<char>, ButtonMappingView>::empty());
            assert(r@.buttons.email =~= Map::<Seq<char>, ButtonMappingView>::empty());
        }
        r
    }
}

/// The error that discovery ends with when `scanimage` failed.
pub open spec fn scanimage_failure(detail: Seq<char>) -> BackendErrorView {
    BackendErrorView::NotReachable {
        scanner: scanner_id(SCANNER_ID_BACKEND@, "discovery"@)->Some_0,
        detail,
    }
}

/// What discovery finds, or the error it ends with.
pub open spec fn discovered(
    run: Option<CommandRun>,
    airscan: Evidence,
    notes: Map<Seq<char>, ScanToPc>,
) -> Result<Seq<ScannerInfoView>, BackendErrorView> {
    match run {
        None => Ok(seq![]),
        Some(CommandRun::NotRun(reason)) => Err(
            scanimage_failure("failed to run scanimage -L: "@ + reason@),
        ),
        Some(CommandRun::Exited { success, code, stdout, stderr }) => if !success {
            Err(
                scanimage_failure(
                    "scanimage -L failed with "@ + exit_text(code) + ": "@ + output_text(
                        text::lossy(stdout@),
                        text::lossy(stderr@),
                    ),
                ),
            )
        } else {
            match presence_of(PackageProbe::Airscan.name(), airscan) {
                Err(e) => Err(BackendErrorView::Other(e)),
                Ok(presence) => {
                    let all = sightings_in(lines(text::lossy(stdout@)));
                    if all_identified(all) {
                        Ok(sighted_scanners(all, InstalledState { airscan: presence }, notes))
                    } else {
                        Err(BackendErrorView::Other(NO_ADDRESS@))
                    }
                },
            }
        },
    }
}

/// The devices on record with those of the scanners that a discovery found, each replaced or
/// removed.
pub open spec fn rerecorded(
    devices: Map<Seq<char>, EsclDeviceView>,
    scanners: Seq<ScannerInfoView>,
) -> Map<Seq<char>, EsclDeviceView>
    decreases scanners.len(),
{
    if scanners.len() == 0 {
        devices
    } else {
        let front = rerecorded(devices, scanners.drop_last());
        match device_in(scanners.last()) {
            Some(device) => front.insert(scanners.last().id, device),
            None => front.remove(scanners.last().id),
        }
    }
}

/// What is noted when a device has been asked about scan-to-PC, if anything is. Silence says
/// nothing about the model.
pub open spec fn note_for(
    scanner: ScannerInfoView,
    answer: Option<Result<(), RegistrarErrorView>>,
) -> Option<ScanToPcView> {
    match ipv4_of(scanner) {
        Some(_) => match answer {
            Some(Ok(())) => Some(ScanToPcView::Available),
            Some(Err(e)) => if e is Refused {
                Some(ScanToPcView::Unavailable { reason: registrar_error_text(e) })
            } else {
                None
            },
            None => None,
        },
        None => match usb_in(scanner.address) {
            Some(endpoint) => Some(
                ScanToPcView::Unavailable {
                    reason: "scanbus registers scan-to-PC over the network, and "@ + endpoint
                        + " is a USB connection; connect this scanner to the network to use its panel keys"@,
                },
            ),
            None => None,
        },
    }
}

/// What a question that may not have been asked was answered.
pub open spec fn asked(answer: Option<Result<(), RegistrarError>>) -> Option<
    Result<(), RegistrarErrorView>,
> {
    match answer {
        Some(Ok(())) => Some(Ok(())),
        Some(Err(e)) => Some(Err(e@)),
        None => None,
    }
}

/// The address that a scanner's presses will arrive from, or why none ever will.
pub open spec fn listening_target(
    scanner: ScannerInfoView,
    note: Option<ScanToPcView>,
) -> Result<Ipv4Addr, Seq<char>> {
    match ipv4_of(scanner) {
        None => Err(
            match usb_in(scanner.address) {
                Some(endpoint) => endpoint
                    + " is a USB connection, and scan-to-PC registration is a network protocol"@,
                None => "discovery found no IPv4 address for "@ + scanner.address
                    + ", so nothing can be registered to send here"@,
            },
        ),
        Some(device) => match note {
            Some(ScanToPcView::Unavailable { reason }) => Err(reason),
            _ => Ok(device),
        },
    }
}

/// The error that a scan is refused with, if it is.
pub open spec fn fetch_error(
    s: BrotherView,
    scanner: Seq<char>,
    trigger: Seq<char>,
    press: Option<PressView>,
) -> Option<BackendErrorView> {
    if press is None {
        Some(BackendErrorView::UnknownJob { scanner, job: trigger })
    } else if !s.devices.dom().contains(scanner) {
        Some(
            BackendErrorView::NotReachable {
                scanner,
                detail: "no eSCL device is on record for "@ + scanner
                    + "; run a discovery so the scanner is seen over eSCL again, then press the key once more"@,
            },
        )
    } else {
        None
    }
}

/// What a press that may not be there says.
pub open spec fn press_view(press: Option<Press>) -> Option<PressView> {
    match press {
        Some(p) => Some(p@),
        None => None,
    }
}

impl BrotherBackend {
    /// The backend's identifier.
    pub fn id(&self) -> (r: &'static str)
        ensures
            r@ == ID@,
    {
        ID
    }

    /// The scanner that discovery itself stands for.
    pub fn discovery_scanner() -> (r: ScannerId)
        ensures
            scanner_id(SCANNER_ID_BACKEND@, "discovery"@) == Some(r@),
    {
        proof {
            reveal_strlit("discovery");
        }
        ScannerId::from_backend(SCANNER_ID_BACKEND, "discovery").unwrap()
    }

    /// What discovery finds, from what came of running `scanimage -L` (nothing where there is
    /// no such tool) and from what is known of `sane-airscan`. The devices that scans run
    /// against are recorded anew, because their names change from one discovery to the next.
    pub fn discover_once(&mut self, run: Option<CommandRun>, airscan: &Evidence) -> (r: Result<
        Vec<ScannerInfo>,
        BackendError,
    >)
        ensures
            match discovered(run, *airscan, old(self)@.notes) {
                Ok(all) => {
                    &&& r matches Ok(v) && scanner_views(v@) == all
                    &&& final(self)@ == (BrotherView {
                        devices: rerecorded(old(self)@.devices, all),
                        ..old(self)@
                    })
                },
                Err(e) => (r matches Err(x) && x@ == e) && final(self)@ == old(self)@,
            },
    {
        match run {
            None => {
                let none: Vec<ScannerInfo> = Vec::new();
                assert(scanner_views(none@) =~= seq![]);
                Ok(none)
            },
            Some(CommandRun::NotRun(reason)) => {
                let mut detail = "failed to run scanimage -L: ".to_owned();
                detail.append(reason.as_str());
                Err(
                    BackendError::NotReachable {
                        scanner: BrotherBackend::discovery_scanner(),
                        detail,
                    },
                )
            },
            Some(CommandRun::Exited { success, code, stdout, stderr }) => {
                if !success {
                    let mut detail = "scanimage -L failed with ".to_owned();
                    detail.append(exit_description(code).as_str());
                    detail.append(": ");
                    detail.append(
                        command_output(stdout.as_slice(), stderr.as_slice()).as_str(),
                    );
                    return Err(
                        BackendError::NotReachable {
                            scanner: BrotherBackend::discovery_scanner(),
                            detail,
                        },
                    );
                }
                let presence = match package_presence(PackageProbe::Airscan, airscan) {
                    Ok(presence) => presence,
                    Err(error) => {
                        return Err(error);
                    },
                };
                let output = text::lossy_text(stdout.as_slice());
                self.discover_in(output.as_str(), InstalledState { airscan: presence })
            },
        }
    }

    /// What discovery finds in the output of `scanimage -L`.
    pub fn discover_in(&mut self, output: &str, installed: InstalledState) -> (r: Result<
        Vec<ScannerInfo>,
        BackendError,
    >)
        ensures
            if all_identified(sightings_in(lines(output@))) {
                let all = sighted_scanners(
                    sightings_in(lines(output@)),
                    installed,
                    old(self)@.notes,
                );
                &&& r matches Ok(v) && scanner_views(v@) == all
                &&& final(self)@ == (BrotherView {
                    devices: rerecorded(old(self)@.devices, all),
                    ..old(self)@
                })
            } else {
                (r matches Err(e) && e@ == BackendErrorView::Other(NO_ADDRESS@)) && final(self)@
                    == old(self)@
            },
    {
        let scanners = match scanners_from_sightings(
            parse_scanimage_output(output),
            installed,
            &self.scan_to_pc,
        ) {
            Ok(scanners) => scanners,
            Err(error) => {
                return Err(error);
            },
        };
        self.record_devices(&scanners);
        Ok(scanners)
    }

    fn record_devices(&mut self, scanners: &Vec<ScannerInfo>)
        ensures
            final(self)@ == (BrotherView {
                devices: rerecorded(old(self)@.devices, scanner_views(scanners@)),
                ..old(self)@
            }),
    {
        let ghost all = scanner_views(scanners@);
        let ghost before = self@;
        let mut i: usize = 0;
        assert(all.take(0) =~= Seq::<ScannerInfoView>::empty());
        while i < scanners.len()
            invariant
                i <= scanners@.len(),
                all == scanner_views(scanners@),
                before == old(self)@,
                self@ == (BrotherView {
                    devices: rerecorded(before.devices, all.take(i as int)),
                    ..before
                }),
            decreases scanners@.len() - i,
        {
            let ghost held = self.escl@;
            proof {
                assert(all.take(i + 1).last() == scanners@[i as int]@);
                assert(all.take(i + 1).drop_last() =~= all.take(i as int));
            }
            match escl_device(&scanners[i]) {
                Some(device) => {
                    let ghost said = device;
                    self.escl.insert(scanners[i].id.as_str().to_owned(), device);
                    assert(device_views(self.escl@) =~= device_views(held).insert(
                        scanners@[i as int].id@,
                        said@,
                    ));
                },
                None => {
                    self.escl.remove(scanners[i].id.as_str());
                    assert(device_views(self.escl@) =~= device_views(held).remove(
                        scanners@[i as int].id@,
                    ));
                },
            }
            i = i + 1;
        }
        assert(all.take(i as int) =~= all);
    }

    /// Remember what a device said about scan-to-PC, from what came of asking it, where it
    /// has an address to ask at.
    pub fn note_scan_to_pc(
        &mut self,
        scanner: &ScannerInfo,
        answer: Option<Result<(), RegistrarError>>,
    )
        ensures
            match note_for(scanner@, asked(answer)) {
                Some(view) => exists|note: ScanToPc| #[trigger]
                    note@ == view && final(self)@ == (BrotherView {
                        notes: old(self)@.notes.insert(scanner@.id, note),
                        ..old(self)@
                    }),
                None => final(self)@ == old(self)@,
            },
    {
        let note = match device_ipv4(scanner) {
            Some(_) => match answer {
                Some(Ok(())) => ScanToPc::Available,
                Some(Err(error)) => if error.is_refusal() {
                    ScanToPc::Unavailable { reason: error.to_text() }
                } else {
                    return ;
                },
                None => {
                    return ;
                },
            },
            None => match usb_endpoint(scanner.address.as_str()) {
                Some(endpoint) => {
                    let mut reason =
                        "scanbus registers scan-to-PC over the network, and ".to_owned();
                    reason.append(endpoint.as_str());
                    reason.append(
                        " is a USB connection; connect this scanner to the network to use its panel keys",
                    );
                    ScanToPc::Unavailable { reason }
                },
                None => {
                    return ;
                },
            },
        };
        let ghost said = note;
        self.scan_to_pc.insert(scanner.id.as_str().to_owned(), note);
        assert(said@ == note_for(scanner@, asked(answer))->Some_0);
    }

    /// The address that this scanner's presses will arrive from, or why none ever will.
    pub fn listen_target(&self, scanner: &ScannerInfo) -> (r: Result<Ipv4Addr, String>)
        ensures
            match listening_target(scanner@, note_of(self@.notes, scanner@.id)) {
                Ok(device) => r matches Ok(x) && x == device,
                Err(why) => r matches Err(x) && x@ == why,
            },
    {
        let device = match device_ipv4(scanner) {
            Some(device) => device,
            None => match usb_endpoint(scanner.address.as_str()) {
                Some(endpoint) => {
                    let mut out = endpoint;
                    out.append(
                        " is a USB connection, and scan-to-PC registration is a network protocol",
                    );
                    return Err(out);
                },
                None => {
                    let mut out = "discovery found no IPv4 address for ".to_owned();
                    out.append(scanner.address.as_str());
                    out.append(", so nothing can be registered to send here");
                    return Err(out);
                },
            },
        };
        match self.scan_to_pc.get(scanner.id.as_str()) {
            Some(ScanToPc::Unavailable { reason }) => Err(reason.clone()),
            _ => Ok(device),
        }
    }

    /// Record what is assigned to a panel key, or that nothing is any longer.
    pub fn set_button_mapping(
        &mut self,
        scanner_id: &ScannerId,
        button_index: u32,
        profile: Option<ProfileKind>,
        options: &Vec<(String, Value)>,
    ) -> (r: Result<(), BackendError>)
        ensures
            match r {
                Ok(()) => exists|f: Function| #[trigger]
                    f.index() == button_index && final(self)@ == (BrotherView {
                        buttons: reassigned(
                            old(self)@.buttons,
                            scanner_id@,
                            f,
                            match profile {
                                Some(profile) => Some(
                                    ButtonMappingView { profile, options: dict_view(options@) },
                                ),
                                None => None,
                            },
                        ),
                        ..old(self)@
                    }),
                Err(e) => (forall|f: Function| #[trigger] f.index() != button_index) && e@
                    == BackendErrorView::Other(
                    "scanner "@ + scanner_id@
                        + " has 4 panel entries, indices 0..=3; asked to map button "@ + decimal(
                        button_index as nat,
                    ),
                ) && final(self)@ == old(self)@,
            },
    {
        let function = match Function::from_button_index(button_index) {
            Some(function) => function,
            None => {
                let mut out = "scanner ".to_owned();
                out.append(scanner_id.as_str());
                out.append(" has 4 panel entries, indices 0..=3; asked to map button ");
                out.append(text::decimal_text(button_index as u64).as_str());
                return Err(BackendError::Other(out));
            },
        };
        let mapping = match profile {
            Some(profile) => Some(ButtonMapping { profile, options: copy_entries(options) }),
            None => None,
        };
        match function {
            Function::File => {
                assign(&mut self.buttons.file, scanner_id, mapping);
            },
            Function::Image => {
                assign(&mut self.buttons.image, scanner_id, mapping);
            },
            Function::Ocr => {
                assign(&mut self.buttons.ocr, scanner_id, mapping);
            },
            Function::Email => {
                assign(&mut self.buttons.email, scanner_id, mapping);
            },
        }
        assert(function.index() == button_index);
        Ok(())
    }

    fn mapping(&self, scanner_id: &ScannerId, f: Function) -> (r: Option<&ButtonMapping>)
        ensures
            mapping_view(r) == assigned(self@.buttons, scanner_id@, f),
    {
        match f {
            Function::File => self.buttons.file.get(scanner_id.as_str()),
            Function::Image => self.buttons.image.get(scanner_id.as_str()),
            Function::Ocr => self.buttons.ocr.get(scanner_id.as_str()),
            Function::Email => self.buttons.email.get(scanner_id.as_str()),
        }
    }

    /// The scan that a press asks for, given the press that was taken for a trigger id, if
    /// there was one.
    pub fn fetch_pages(&self, scanner_id: &ScannerId, trigger_id: &str, press: Option<Press>) -> (r:
        Result<ScanimageConfig, BackendError>)
        ensures
            match fetch_error(self@, scanner_id@, trigger_id@, press_view(press)) {
                Some(e) => r matches Err(x) && x@ == e,
                None => r matches Ok(c) && ({
                    let device = self@.devices[scanner_id@];
                    let plan = acquisition_of(
                        assigned(self@.buttons, scanner_id@, press->Some_0.function),
                        device,
                    );
                    &&& c.program@ == self@.scanimage_helper_path
                    &&& c.scanner@ == scanner_id@
                    &&& c.device_name@ == device.device_uri
                    &&& c.resolution_dpi == plan.resolution_dpi
                    &&& text::all_texts(c.extra_args@) == plan.args
                }),
            },
    {
        let press = match press {
            Some(press) => press,
            None => {
                return Err(
                    BackendError::UnknownJob {
                        scanner: scanner_id.clone(),
                        job: trigger_id.to_owned(),
                    },
                );
            },
        };
        let device = match self.escl.get(scanner_id.as_str()) {
            Some(device) => device,
            None => {
                let mut detail = "no eSCL device is on record for ".to_owned();
                detail.append(scanner_id.as_str());
                detail.append(
                    "; run a discovery so the scanner is seen over eSCL again, then press the key once more",
                );
                return Err(BackendError::NotReachable { scanner: scanner_id.clone(), detail });
            },
        };
        let acquisition = scanimage_args(self.mapping(scanner_id, press.function), device);
        let mut config = ScanimageConfig::new(scanner_id.clone(), device.device_uri.clone());
        config.program = self.scanimage_helper_path.clone();
        config.resolution_dpi = acquisition.resolution_dpi;
        config.extra_args = acquisition.args;
        Ok(config)
    }
}

// ------------------------------------------------------------------------------------ laws

/// Files on disk decide: with one of them there a package can be used, whatever the packaging
/// system says, and one that is registered without any cannot.
pub proof fn law_files_decide(package: Seq<char>, evidence: Evidence)
    ensures
        evidence is KnownFile ==> presence_of(package, evidence) == Ok::<Presence, Seq<char>>(
            Presence::Present,
        ),
        presence_of(package, evidence) == Ok::<Presence, Seq<char>>(Presence::Present) ==> (evidence
            is KnownFile || evidence matches Evidence::Listed { file_present: true, .. }),
{
}

/// Nothing but a query is ever run: `dpkg-query` is asked for the status of the package or
/// for its files.
pub proof fn law_only_queries_are_run(i: Inquiry)
    ensures
        question_of(i) matches QuestionView::Run(arguments) ==> arguments.len() > 0 && (arguments[0]
            == "-W"@ || arguments[0] == "-L"@) && arguments.last() == i.probe.name(),
{
}

/// How many questions may still follow.
pub open spec fn questions_left(gathered: Gathered) -> nat {
    match gathered {
        Gathered::Nothing => 5,
        Gathered::NoKnownFile => 4,
        Gathered::Tool => 3,
        Gathered::Registered { .. } => 2,
        Gathered::Files { .. } => 1,
    }
}

/// Whether a reply answers the question.
pub open spec fn answers(i: Inquiry, reply: Reply) -> bool {
    match question_of(i) {
        QuestionView::Run(_) => reply is Ran,
        _ => reply is Is,
    }
}

/// An inquiry asks at most five questions, each of them once, and never about another
/// package.
pub proof fn law_an_inquiry_ends(i: Inquiry, reply: Reply)
    requires
        answers(i, reply),
    ensures
        told(i, reply) matches Inquired::More(next) ==> next.probe == i.probe && questions_left(
            next.gathered,
        ) < questions_left(i.gathered),
        questions_left(i.gathered) == 1 ==> told(i, reply) is Found,
{
}

/// A file that is there settles the matter before anything is run, and a package that is
/// registered counts as missing only where its own files were looked for and none was there.
pub proof fn law_files_are_looked_for_first(i: Inquiry, reply: Reply)
    ensures
        i.gathered is Nothing && reply == Reply::Is(true) ==> told(i, reply) == Inquired::Found(
            Evidence::KnownFile,
        ),
        told(i, reply) matches Inquired::Found(evidence) ==> (presence_of(i.probe.name(), evidence)
            == Ok::<Presence, Seq<char>>(Presence::RegisteredButMissing) ==> i.gathered is Files
            && reply == Reply::Is(false)),
{
}

/// A device on the network that does not answer is remembered as nothing at all: what it can
/// do, and whether it is listened to, stays as it was.
pub proof fn law_silence_is_not_noted(scanner: ScannerInfoView, e: RegistrarErrorView)
    requires
        ipv4_of(scanner) is Some,
        !(e is Refused),
    ensures
        note_for(scanner, Some(Err(e))) is None,
        listening_target(scanner, None) == Ok::<Ipv4Addr, Seq<char>>(ipv4_of(scanner)->Some_0),
{
}

/// A scanner whose device refused, or is on USB, is listened to by nobody, and the reason is
/// kept.
pub proof fn law_a_refused_scanner_is_not_listened_to(
    scanner: ScannerInfoView,
    answer: Option<Result<(), RegistrarErrorView>>,
)
    requires
        note_for(scanner, answer) is Some,
        note_for(scanner, answer)->Some_0 is Unavailable,
    ensures
        listening_target(scanner, note_for(scanner, answer)) is Err,
        ipv4_of(scanner) is Some ==> listening_target(scanner, note_for(scanner, answer)) == Err::<
            Ipv4Addr,
            Seq<char>,
        >(note_for(scanner, answer)->Some_0->reason),
{
}

/// Assigning a key changes that key of that scanner and nothing else, and clearing it
/// forgets what it was assigned.
pub proof fn law_a_key_is_assigned_alone(
    b: ButtonsView,
    scanner: Seq<char>,
    f: Function,
    mapping: Option<ButtonMappingView>,
    other: Seq<char>,
    g: Function,
)
    ensures
        assigned(reassigned(b, scanner, f, mapping), scanner, f) == mapping,
        other != scanner || g != f ==> assigned(reassigned(b, scanner, f, mapping), other, g)
            == assigned(b, other, g),
{
}

/// After a discovery, the device on record for each scanner that was found is the one that
/// the scanner publishes, and there is none for a scanner that publishes none.
pub proof fn law_discovery_replaces_the_device_on_record(
    devices: Map<Seq<char>, EsclDeviceView>,
    scanners: Seq<ScannerInfoView>,
    i: int,
)
    requires
        0 <= i < scanners.len(),
        forall|a: int, b: int|
            0 <= a < b < scanners.len() ==> (#[trigger] scanners[a]).id != (
            #[trigger] scanners[b]).id,
    ensures
        found(rerecorded(devices, scanners), scanners[i].id) == device_in(scanners[i]),
    decreases scanners.len(),
{
    let front = scanners.drop_last();
    if i < front.len() {
        assert forall|a: int, b: int| 0 <= a < b < front.len() implies (#[trigger] front[a]).id != (
        #[trigger] front[b]).id by {
            assert(front[a] == scanners[a] && front[b] == scanners[b]);
        }
        law_discovery_replaces_the_device_on_record(devices, front, i);
        assert(front[i] == scanners[i]);
        assert(scanners[i].id != scanners[scanners.len() - 1].id);
    }
}

/// What a package counts as: present where one of its files is, by whichever way it was found;
/// registered but missing where the packaging system has it and lists files and none of them
/// is there; absent where the packaging system does not have it, or is not there to be asked.
/// It cannot be told where the packaging system was to be asked and could not be run.
pub proof fn law_presence_is_what_was_found(
    package: Seq<char>,
    evidence: Evidence,
    success: bool,
    code: Option<i32>,
    stdout: Vec<u8>,
    stderr: Vec<u8>,
)
    ensures
        ({
            let says = success && trim(text::lossy(stdout@)) == "installed"@;
            match evidence {
                Evidence::KnownFile => true,
                Evidence::NoTool => presence_of(package, evidence) == Ok::<Presence, Seq<char>>(
                    Presence::Absent,
                ),
                Evidence::Unregistered { status } => {
                    &&& status is NotRun ==> presence_of(package, evidence) is Err
                    &&& status is Exited ==> presence_of(package, evidence) == Ok::<
                        Presence,
                        Seq<char>,
                    >(Presence::Absent)
                },
                Evidence::Listed { status, listing, file_present } => {
                    &&& status is NotRun ==> presence_of(package, evidence) is Err
                    &&& status == (CommandRun::Exited { success, code, stdout, stderr }) && !says
                        ==> presence_of(package, evidence) == Ok::<Presence, Seq<char>>(
                        Presence::Absent,
                    )
                    &&& status == (CommandRun::Exited { success, code, stdout, stderr }) && says
                        && listing is NotRun ==> presence_of(package, evidence) is Err
                    &&& status == (CommandRun::Exited { success, code, stdout, stderr }) && says
                        && listing is Exited && file_present ==> presence_of(package, evidence)
                        == Ok::<Presence, Seq<char>>(Presence::Present)
                    &&& status == (CommandRun::Exited { success, code, stdout, stderr }) && says
                        && listing is Exited && !file_present ==> presence_of(package, evidence)
                        == Ok::<Presence, Seq<char>>(Presence::RegisteredButMissing)
                },
            }
        }),
{
}

/// The paths of a listing are its lines that begin with a slash, without the white space
/// around them, in order: listings one behind the other list the paths of both.
pub proof fn law_a_path_begins_with_a_slash(
    front: Seq<Seq<char>>,
    line: Seq<char>,
    back: Seq<Seq<char>>,
)
    ensures
        paths_in(front + back) == paths_in(front) + paths_in(back),
        trim(line).len() > 0 && trim(line)[0] == '/' ==> paths_in(seq![line]) == seq![trim(line)],
        trim(line).len() == 0 || trim(line)[0] != '/' ==> paths_in(seq![line]).len() == 0,
        paths_in(seq![]).len() == 0,
    decreases back.len(),
{
    reveal_strlit("/");
    let one = seq![line];
    assert(one.drop_last() =~= seq![]);
    assert(paths_in(one.drop_last()) =~= seq![]);
    if begins(trim(line), "/"@) {
        assert(trim(line).take(1)[0] == trim(line)[0]);
        assert(paths_in(one) =~= seq![trim(line)]);
    } else if trim(line).len() > 0 && trim(line)[0] == '/' {
        assert(trim(line).take(1) =~= "/"@);
    }
    if back.len() == 0 {
        assert(front + back =~= front);
        assert(paths_in(front + back) =~= paths_in(front) + paths_in(back));
    } else {
        law_a_path_begins_with_a_slash(front, line, back.drop_last());
        assert((front + back).drop_last() =~= front + back.drop_last());
        assert(paths_in(front + back) =~= paths_in(front) + paths_in(back));
    }
}

/// A scanner can be paired exactly where the one package is there and the scanner was seen
/// over eSCL; whatever is in the way, it is that package that is named, and how to install it
/// is said.
#[verifier::rlimit(40)]
pub proof fn law_a_scanner_pairs_over_escl_alone(scanner: ScannerInfoView, airscan: Evidence)
    ensures
        ({
            let found = presence_of("sane-airscan"@, airscan);
            let obstacle = pairing_obstacle(scanner, airscan);
            &&& obstacle is None <==> found == Ok::<Presence, Seq<char>>(Presence::Present)
                && device_in(scanner) is Some
            &&& found is Err ==> obstacle == Some(BackendErrorView::Other(found->Err_0))
            &&& found is Ok && obstacle is Some ==> (
            obstacle->Some_0 matches BackendErrorView::InstallFailed { package, detail } && package
                == "sane-airscan"@ && text::holds(detail, "apt install sane-airscan"@))
            &&& found == Ok::<Presence, Seq<char>>(Presence::Present) && obstacle is Some ==> (
            obstacle->Some_0 matches BackendErrorView::InstallFailed { detail, .. } && begins(
                detail,
                scanner.name,
            ))
            &&& found is Ok && found != Ok::<Presence, Seq<char>>(Presence::Present) ==> (
            obstacle is Some && (
            obstacle->Some_0 matches BackendErrorView::InstallFailed { detail, .. } && begins(
                detail,
                "sane-airscan"@,
            )))
        }),
{
    let package = "sane-airscan"@;
    let hint = AIRSCAN_INSTALL_HINT@;
    let a = package
        + " is registered as installed but none of its files are on disk; reinstall it with `"@;
    let b = package
        + " is not installed; scanbus acquires Brother scans over eSCL and needs it. Run `"@;
    let c = scanner.name
        + " was found, but not over eSCL: scanbus acquires Brother scans through sane-airscan and this device offered no eSCL interface to discovery. Check that `"@;
    lemma_held_between(
        a,
        hint,
        " --reinstall` and pair again — scanbus does not install it"@,
        package,
    );
    lemma_held_between(
        b,
        hint,
        "` and pair again — scanbus does not install it"@,
        package,
    );
    lemma_held_between(
        c,
        hint,
        "` has been run, that the scanner has network scanning enabled, and rediscover — scanbus no longer uses brscan4/brscan5"@,
        scanner.name,
    );
    assert(a.take(package.len() as int) =~= package);
    assert(b.take(package.len() as int) =~= package);
    assert(c.take(scanner.name.len() as int) =~= scanner.name);
}

proof fn lemma_held_between(front: Seq<char>, word: Seq<char>, back: Seq<char>, start: Seq<char>)
    ensures
        text::holds(front + word + back, word),
        begins(front, start) ==> begins(front + word + back, start),
{
    let s = front + word + back;
    let at: int = front.len() as int;
    text::lemma_find(s, word);
    assert(s.subrange(at, at + word.len()) =~= word);
    assert(text::occurs_at(s, word, at));
    if begins(front, start) {
        assert(s.take(start.len() as int) =~= front.take(start.len() as int));
    }
}

/// What a device answers is what is noted of it: that it does scan-to-PC where it said so, and
/// that it does not, in its own words, where it refused. A scanner on USB does not, whatever is
/// answered; of one that is on neither nothing is noted.
pub proof fn law_an_answer_is_noted(
    scanner: ScannerInfoView,
    e: RegistrarErrorView,
    answer: Option<Result<(), RegistrarErrorView>>,
)
    ensures
        ipv4_of(scanner) is Some ==> note_for(scanner, Some(Ok(()))) == Some(
            ScanToPcView::Available,
        ),
        ipv4_of(scanner) is Some && e is Refused ==> note_for(scanner, Some(Err(e))) == Some(
            ScanToPcView::Unavailable { reason: registrar_error_text(e) },
        ),
        ipv4_of(scanner) is Some ==> note_for(scanner, None) is None,
        ipv4_of(scanner) is None && usb_in(scanner.address) is Some ==> (note_for(
            scanner,
            answer,
        ) matches Some(ScanToPcView::Unavailable { reason }) && text::holds(
            reason,
            usb_in(scanner.address)->Some_0,
        )),
        ipv4_of(scanner) is None && usb_in(scanner.address) is None ==> note_for(scanner, answer)
            is None,
{
    match usb_in(scanner.address) {
        Some(endpoint) => {
            lemma_held_between(
                "scanbus registers scan-to-PC over the network, and "@,
                endpoint,
                " is a USB connection; connect this scanner to the network to use its panel keys"@,
                seq![],
            );
        },
        None => {},
    }
}

/// A scanner is listened to exactly where it has an address on the network and is not known to
/// refuse, and presses are then expected from that address.
pub proof fn law_presses_come_from_the_address(scanner: ScannerInfoView, note: Option<ScanToPcView>)
    ensures
        listening_target(scanner, note) is Ok <==> ipv4_of(scanner) is Some && !(
        note matches Some(ScanToPcView::Unavailable { .. })),
        listening_target(scanner, note) matches Ok(ip) ==> Some(ip) == ipv4_of(scanner),
{
}

/// Pages are fetched exactly for a press that is there, from a scanner whose device is on
/// record; a press that is not there is an unknown job before it is anything else.
pub proof fn law_pages_are_fetched_for_a_press(
    s: BrotherView,
    scanner: Seq<char>,
    trigger: Seq<char>,
    press: Option<PressView>,
)
    ensures
        fetch_error(s, scanner, trigger, press) is None <==> press is Some && found(
            s.devices,
            scanner,
        ) is Some,
        press is None ==> fetch_error(s, scanner, trigger, press) == Some(
            BackendErrorView::UnknownJob { scanner, job: trigger },
        ),
        press is Some && found(s.devices, scanner) is None ==> (fetch_error(
            s,
            scanner,
            trigger,
            press,
        ) matches Some(BackendErrorView::NotReachable { scanner: named, .. }) && named == scanner),
{
}

/// Discovery finds scanners only where `scanimage` ran and succeeded and the package could be
/// told; where `scanimage` is not there it finds none, and where it failed what it printed is
/// said.
pub proof fn law_discovery_fails_where_scanimage_does(
    run: Option<CommandRun>,
    airscan: Evidence,
    notes: Map<Seq<char>, ScanToPc>,
)
    ensures
        run is None ==> discovered(run, airscan, notes) == Ok::<
            Seq<ScannerInfoView>,
            BackendErrorView,
        >(seq![]),
        run matches Some(CommandRun::NotRun(reason)) ==> (discovered(
            run,
            airscan,
            notes,
        ) matches Err(BackendErrorView::NotReachable { detail, .. }) && text::ends(
            detail,
            reason@,
        )),
        run matches Some(CommandRun::Exited { success, code, stdout, stderr }) ==> (!success ==> (
        discovered(run, airscan, notes) matches Err(BackendErrorView::NotReachable { detail, .. })
            && text::ends(detail, output_text(text::lossy(stdout@), text::lossy(stderr@)))
            && text::holds(detail, exit_text(code)))),
        run matches Some(CommandRun::Exited { success, .. }) ==> (success && presence_of(
            "sane-airscan"@,
            airscan,
        ) is Err ==> discovered(run, airscan, notes) is Err && discovered(
            run,
            airscan,
            notes,
        )->Err_0 is Other),
{
    match run {
        Some(CommandRun::NotRun(reason)) => {
            let detail = "failed to run scanimage -L: "@ + reason@;
            assert(detail.skip(detail.len() - reason@.len()) =~= reason@);
        },
        Some(CommandRun::Exited { success, code, stdout, stderr }) => {
            let said = output_text(text::lossy(stdout@), text::lossy(stderr@));
            let front = "scanimage -L failed with "@ + exit_text(code) + ": "@;
            let detail = front + said;
            assert(detail.skip(detail.len() - said.len()) =~= said);
            lemma_held_between(
                "scanimage -L failed with "@,
                exit_text(code),
                ": "@ + said,
                seq![],
            );
            assert("scanimage -L failed with "@ + exit_text(code) + (": "@ + said) =~= detail);
        },
        None => {},
    }
}

/// A discovery leaves the device of a scanner that it did not find on record.
pub proof fn law_discovery_leaves_other_devices(
    devices: Map<Seq<char>, EsclDeviceView>,
    scanners: Seq<ScannerInfoView>,
    other: Seq<char>,
)
    requires
        forall|i: int| 0 <= i < scanners.len() ==> (#[trigger] scanners[i]).id != other,
    ensures
        found(rerecorded(devices, scanners), other) == found(devices, other),
    decreases scanners.len(),
{
    if scanners.len() > 0 {
        let front = scanners.drop_last();
        assert forall|i: int| 0 <= i < front.len() implies (#[trigger] front[i]).id != other by {
            assert(front[i] == scanners[i]);
        }
        law_discovery_leaves_other_devices(devices, front, other);
        assert(scanners[scanners.len() - 1].id != other);
    }
}

/// A port that is taken is named, and so is the program that holds it and how to stop it where
/// that program is installed; where it is not, its user is told how to find out.
#[verifier::rlimit(40)]
pub proof fn law_a_taken_port_is_named(port: u16, skey: Presence, scanner: Seq<char>)
    ensures
        begins(taken_text(port, skey), "UDP/"@ + decimal(port as nat)),
        text::ends(taken_text(port, skey), not_shared(port)),
        skey == Presence::Present ==> text::holds(taken_text(port, skey), "brscan-skey -t"@),
        skey != Presence::Present ==> text::holds(taken_text(port, skey), "ss -lunp"@),
        listening_error(scanner, BindErrorView::Taken { port }, skey) == BackendErrorView::Other(
            taken_text(port, skey),
        ),
{
    let front = "UDP/"@ + decimal(port as nat);
    let said = taken_text(port, skey);
    let back = not_shared(port);
    assert(said.take(front.len() as int) =~= front);
    assert(said.skip(said.len() - back.len()) =~= back);
    if skey == Presence::Present {
        let long = " is already bound, and brscan-skey is installed on this machine, which is what holds it. Stop it with `brscan-skey -t`, keep whatever launches it from starting it again, and connect this scanner again. "@;
        reveal_strlit(
            " is already bound, and brscan-skey is installed on this machine, which is what holds it. Stop it with `brscan-skey -t`, keep whatever launches it from starting it again, and connect this scanner again. ",
        );
        reveal_strlit("brscan-skey -t");
        assert(long.subrange(103, 117) =~= "brscan-skey -t"@);
        lemma_held_between(
            front + long.take(103),
            "brscan-skey -t"@,
            long.skip(117) + back,
            seq![],
        );
        assert(front + long.take(103) + "brscan-skey -t"@ + (long.skip(117) + back) =~= said);
    } else {
        let long = " is already bound by another process. brscan-skey is what normally holds that port and does not appear to be installed here, so run `ss -lunp | grep "@;
        reveal_strlit(
            " is already bound by another process. brscan-skey is what normally holds that port and does not appear to be installed here, so run `ss -lunp | grep ",
        );
        reveal_strlit("ss -lunp");
        assert(long.subrange(133, 141) =~= "ss -lunp"@);
        let rest = long.skip(141) + decimal(port as nat) + "` to see what does. "@ + back;
        lemma_held_between(front + long.take(133), "ss -lunp"@, rest, seq![]);
        assert(front + long.take(133) + "ss -lunp"@ + rest =~= said);
    }
}

/// The questions of an inquiry come in this order, each one only where those before it did not
/// settle the matter: whether one of the files that tell is there, whether there is the tool,
/// what it says of the package, which files it lists, and whether one of those is there.
pub proof fn law_an_inquiry_asks_in_turn(
    probe: PackageProbe,
    status: CommandRun,
    listing: CommandRun,
    there: bool,
)
    ensures
        ({
            let at = |gathered: Gathered| Inquiry { probe, gathered };
            let start = at(Gathered::Nothing);
            let asked = at(Gathered::Tool);
            let says = registered(probe.name(), status) == Ok::<bool, Seq<char>>(true);
            &&& question_of(start) == QuestionView::AnyExists(probe.known_files())
            &&& told(start, Reply::Is(true)) == Inquired::Found(Evidence::KnownFile)
            &&& told(start, Reply::Is(false)) == Inquired::More(at(Gathered::NoKnownFile))
            &&& question_of(at(Gathered::NoKnownFile)) is HasTool
            &&& told(at(Gathered::NoKnownFile), Reply::Is(false)) == Inquired::Found(
                Evidence::NoTool,
            )
            &&& told(at(Gathered::NoKnownFile), Reply::Is(true)) == Inquired::More(asked)
            &&& question_of(asked) is Run
            &&& says ==> told(asked, Reply::Ran(status)) == Inquired::More(
                at(Gathered::Registered { status }),
            )
            &&& !says ==> told(asked, Reply::Ran(status)) == Inquired::Found(
                Evidence::Unregistered { status },
            )
            &&& question_of(at(Gathered::Registered { status })) is Run
            &&& question_of(at(Gathered::Registered { status })) != question_of(asked)
            &&& told(at(Gathered::Registered { status }), Reply::Ran(listing)) == Inquired::More(
                at(Gathered::Files { status, listing }),
            )
            &&& question_of(at(Gathered::Files { status, listing })) is AnyFile
            &&& told(at(Gathered::Files { status, listing }), Reply::Is(there)) == Inquired::Found(
                Evidence::Listed { status, listing, file_present: there },
            )
        }),
{
    assert(probe.status_words().len() == 3);
    assert(probe.list_words().len() == 2);
}

/// The files that are looked for are those that the packaging system lists, and none where it
/// could not be asked or does not know the package.
pub proof fn law_listed_files_are_looked_for(
    probe: PackageProbe,
    status: CommandRun,
    listing: CommandRun,
)
    ensures
        question_of(Inquiry { probe, gathered: Gathered::Files { status, listing } })
            == QuestionView::AnyFile(
            match listing {
                CommandRun::Exited { success: true, stdout, .. } => paths_in(
                    lines(text::lossy(stdout@)),
                ),
                _ => seq![],
            },
        ),
{
}

} // verus!
