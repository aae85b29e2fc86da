//! Acquisition through `scanimage --batch`: the command line, the pages it writes, and the
//! order in which they are taken.
use vstd::prelude::*;
use vstd::slice::slice_subrange;
use vstd::utf8::{decode_utf8, valid_utf8};

use crate::model::{
    exit_description, exit_text, BackendError, BackendErrorView, PageFormat, RawPage, ScannerId,
};
use crate::text;
use crate::text::{all_texts, decimal, parse_unsigned, quoted, trim, utf8_refusal};

verus! {

/// The packaged helper that runs `scanimage`.
pub const DEFAULT_SCANIMAGE_HELPER: &'static str = "/usr/libexec/scanbus/scanbus-scanimage";

/// How long to wait before looking for pages again, in milliseconds.
pub const PAGE_POLL_MILLIS: u64 = 50;

/// The resolution stamped on pages when nothing says otherwise.
pub const DEFAULT_PAGE_DPI: u32 = 300;

// ------------------------------------------------------------------------ the command line

/// One run of `scanimage`.
#[derive(Debug, Clone, PartialEq, Eq)]
pub struct ScanimageConfig {
    pub program: String,
    pub scanner: ScannerId,
    pub device_name: String,
    pub resolution_dpi: u32,
    pub extra_args: Vec<String>,
}

/// The arguments of a batch run.
pub open spec fn batch_args(
    device_name: Seq<char>,
    pattern: Seq<char>,
    extra: Seq<Seq<char>>,
) -> Seq<Seq<char>> {
    seq!["--device-name="@ + device_name, "--format=pnm"@, "--batch="@ + pattern] + extra
}

impl ScanimageConfig {
    /// A run of the packaged helper at the default resolution.
    pub fn new(scanner: ScannerId, device_name: String) -> (r: Self)
        ensures
            r.program@ == DEFAULT_SCANIMAGE_HELPER@,
            r.scanner == scanner,
            r.device_name == device_name,
            r.resolution_dpi == DEFAULT_PAGE_DPI,
            r.extra_args@ == Seq::<String>::empty(),
    {
        ScanimageConfig {
            program: DEFAULT_SCANIMAGE_HELPER.to_owned(),
            scanner,
            device_name,
            resolution_dpi: DEFAULT_PAGE_DPI,
            extra_args: Vec::new(),
        }
    }

    /// The arguments of a run that writes its pages to `pattern`.
    pub fn arguments(&self, pattern: &str) -> (r: Vec<String>)
        ensures
            all_texts(r@) == batch_args(self.device_name@, pattern@, all_texts(self.extra_args@)),
    {
        let mut out: Vec<String> = Vec::new();
        let mut device = "--device-name=".to_owned();
        device.append(self.device_name.as_str());
        out.push(device);
        out.push("--format=pnm".to_owned());
        let mut batch = "--batch=".to_owned();
        batch.append(pattern);
        out.push(batch);
        let ghost extra = all_texts(self.extra_args@);
        let ghost fixed = seq![
            "--device-name="@ + self.device_name@,
            "--format=pnm"@,
            "--batch="@ + pattern@,
        ];
        let mut i: usize = 0;
        assert(all_texts(out@) =~= fixed + extra.take(0));
        while i < self.extra_args.len()
            invariant
                i <= self.extra_args@.len(),
                extra == all_texts(self.extra_args@),
                all_texts(out@) =~= fixed + extra.take(i as int),
            decreases self.extra_args@.len() - i,
        {
            let ghost before = out@;
            out.push(self.extra_args[i].clone());
            proof {
                assert(all_texts(out@) =~= all_texts(before).push(extra[i as int]));
                assert(extra.take(i + 1) =~= extra.take(i as int).push(extra[i as int]));
            }
            i = i + 1;
        }
        assert(extra.take(i as int) =~= extra);
        out
    }
}

/// What can go wrong with a run before it has ended.
#[derive(Debug, Clone, PartialEq, Eq)]
pub enum RunFault {
    /// There is no place to put the pages.
    Spool(String),
    /// The program could not be started.
    Start(String),
    /// The program has no error output to read.
    NoStderr,
    /// The program cannot be asked whether it runs.
    Poll(String),
    /// A page that is there cannot be read.
    Read { path: String, error: String },
    /// A page that is there is none.
    Invalid(String),
    /// Nobody takes pages any more.
    ReceiverDropped,
}

/// The error that a fault is reported as.
pub open spec fn fault_view(config: ScanimageConfig, fault: RunFault) -> BackendErrorView {
    match fault {
        RunFault::Spool(error) => BackendErrorView::Other("cannot create scan spool: "@ + error@),
        RunFault::Start(error) => BackendErrorView::NotReachable {
            scanner: config.scanner@,
            detail: "failed to start "@ + config.program@ + ": "@ + error@,
        },
        RunFault::NoStderr => BackendErrorView::Other(
            config.program@ + " did not provide stderr"@,
        ),
        RunFault::Poll(error) => BackendErrorView::Other(
            "failed to poll "@ + config.program@ + ": "@ + error@,
        ),
        RunFault::Read { path, error } => BackendErrorView::Other(
            "cannot read scanned page "@ + path@ + ": "@ + error@,
        ),
        RunFault::Invalid(sentence) => BackendErrorView::Other(sentence@),
        RunFault::ReceiverDropped => BackendErrorView::Other("scan page receiver dropped"@),
    }
}

impl ScanimageConfig {
    /// The error that a fault is reported as.
    pub fn fault(&self, fault: RunFault) -> (r: BackendError)
        ensures
            r@ == fault_view(*self, fault),
    {
        match fault {
            RunFault::Spool(error) => {
                let mut out = "cannot create scan spool: ".to_owned();
                out.append(error.as_str());
                BackendError::Other(out)
            },
            RunFault::Start(error) => {
                let mut detail = "failed to start ".to_owned();
                detail.append(self.program.as_str());
                detail.append(": ");
                detail.append(error.as_str());
                BackendError::NotReachable { scanner: self.scanner.clone(), detail }
            },
            RunFault::NoStderr => {
                let mut out = self.program.clone();
                out.append(" did not provide stderr");
                BackendError::Other(out)
            },
            RunFault::Poll(error) => {
                let mut out = "failed to poll ".to_owned();
                out.append(self.program.as_str());
                out.append(": ");
                out.append(error.as_str());
                BackendError::Other(out)
            },
            RunFault::Read { path, error } => {
                let mut out = "cannot read scanned page ".to_owned();
                out.append(path.as_str());
                out.append(": ");
                out.append(error.as_str());
                BackendError::Other(out)
            },
            RunFault::Invalid(sentence) => BackendError::Other(sentence),
            RunFault::ReceiverDropped => BackendError::Other(
                "scan page receiver dropped".to_owned(),
            ),
        }
    }

    /// A page of this run.
    pub fn page(&self, index: u32, data: Vec<u8>) -> (r: RawPage)
        ensures
            r == (RawPage {
                index,
                format: PageFormat::Pnm,
                resolution_dpi: self.resolution_dpi,
                data,
            }),
    {
        RawPage { index, format: PageFormat::Pnm, resolution_dpi: self.resolution_dpi, data }
    }

    /// The error that a run ends with, once all its pages are handed over: none where the
    /// program succeeded, or where it is not known to have ended.
    pub fn outcome(&self, ended: Option<(bool, Option<i32>)>, stderr: &[u8]) -> (r: Option<
        BackendError,
    >)
        ensures
            match ended {
                Some((false, code)) => r matches Some(e) && e@ == BackendErrorView::Other(
                    failure_text(self.program@, code, trim(text::lossy(stderr@))),
                ),
                _ => r is None,
            },
    {
        match ended {
            Some((success, code)) => if success {
                None
            } else {
                let printed = text::trim_text(text::lossy_text(stderr).as_str());
                Some(
                    BackendError::Other(
                        failure_detail(self.program.as_str(), code, printed.as_str()),
                    ),
                )
            },
            None => None,
        }
    }
}

/// What is said of a run that failed.
pub open spec fn failure_text(program: Seq<char>, code: Option<i32>, stderr: Seq<char>) -> Seq<
    char,
> {
    if stderr.len() == 0 {
        program + " exited with "@ + exit_text(code)
    } else {
        program + " exited with "@ + exit_text(code) + ": "@ + stderr
    }
}

/// What is said of a run that failed; `stderr` is what it printed, trimmed.
pub fn failure_detail(program: &str, code: Option<i32>, stderr: &str) -> (r: String)
    ensures
        r@ == failure_text(program@, code, stderr@),
{
    let mut out = program.to_owned();
    out.append(" exited with ");
    out.append(exit_description(code).as_str());
    if !stderr.is_empty() {
        out.append(": ");
        out.append(stderr);
    }
    out
}

/// A number over at least three digits.
pub open spec fn padded(n: nat) -> Seq<char> {
    if n < 10 {
        "00"@ + decimal(n)
    } else if n < 100 {
        "0"@ + decimal(n)
    } else {
        decimal(n)
    }
}

/// The name of the file a page is written to.
pub fn page_file_name(page_number: u32) -> (r: String)
    ensures
        r@ == "page-"@ + padded(page_number as nat) + ".pnm"@,
{
    let digits = text::decimal_text(page_number as u64);
    let mut number = if page_number < 10 {
        "00".to_owned()
    } else if page_number < 100 {
        "0".to_owned()
    } else {
        String::new()
    };
    number.append(digits.as_str());
    assert(number@ =~= padded(page_number as nat));
    let mut out = "page-".to_owned();
    out.append(number.as_str());
    out.append(".pnm");
    out
}

// ------------------------------------------------------------------------- complete pages

/// Whether a byte is ASCII white space.
pub open spec fn is_blank(b: u8) -> bool {
    b == 0x20 || b == 0x09 || b == 0x0a || b == 0x0c || b == 0x0d
}

/// The first newline from `i` on, or the end.
pub open spec fn comment_end(b: Seq<u8>, i: int) -> int
    decreases b.len() - i,
{
    if i >= b.len() || b[i] == 0x0a {
        i
    } else {
        comment_end(b, i + 1)
    }
}

/// The end of a comment is no earlier than where it is looked for.
pub proof fn lemma_comment_end(b: Seq<u8>, i: int)
    requires
        0 <= i <= b.len(),
    ensures
        i <= comment_end(b, i) <= b.len(),
    decreases b.len() - i,
{
    if i < b.len() && b[i] != 0x0a {
        lemma_comment_end(b, i + 1);
    }
}

/// The first byte from `i` on that belongs to a token, or the end: white space and comments
/// are passed over.
pub open spec fn token_start(b: Seq<u8>, i: int) -> int
    decreases b.len() - i,
    when 0 <= i <= b.len()
{
    proof {
        if 0 <= i < b.len() {
            lemma_comment_end(b, i + 1);
        }
    }
    if i >= b.len() {
        i
    } else if is_blank(b[i]) {
        token_start(b, i + 1)
    } else if b[i] == 0x23 {
        token_start(b, comment_end(b, i + 1))
    } else {
        i
    }
}

/// The first white space from `i` on, or the end.
pub open spec fn token_end(b: Seq<u8>, i: int) -> int
    decreases b.len() - i,
{
    if i >= b.len() || is_blank(b[i]) {
        i
    } else {
        token_end(b, i + 1)
    }
}

/// The token behind `i`, and where it ends.
pub open spec fn token_at(b: Seq<u8>, i: int) -> Option<(Seq<u8>, int)> {
    let start = token_start(b, i);
    if start >= b.len() {
        None
    } else {
        Some((b.subrange(start, token_end(b, start)), token_end(b, start)))
    }
}

/// The number behind `i`, and where it ends; `what` says what it counts.
pub open spec fn number_at(b: Seq<u8>, i: int, what: Seq<char>) -> Result<
    Option<(nat, int)>,
    Seq<char>,
> {
    match token_at(b, i) {
        None => Ok(None),
        Some((token, end)) => if !valid_utf8(token) {
            Err("header is not valid UTF-8: "@ + utf8_refusal(token))
        } else {
            match parse_unsigned(decode_utf8(token), usize::MAX as nat) {
                Some(n) => Ok(Some((n, end))),
                None => Err("invalid "@ + what + " "@ + quoted(decode_utf8(token))),
            }
        },
    }
}

/// Samples per pixel of a kind of page; zero for a bitmap, whose pixels are bits.
pub open spec fn channels_of(kind: u8) -> Option<nat> {
    if kind == 0x34 {
        Some(0)
    } else if kind == 0x35 {
        Some(1)
    } else if kind == 0x36 {
        Some(3)
    } else {
        None
    }
}

/// The bytes a raster takes.
pub open spec fn raster_len(kind: u8, width: nat, height: nat, maxval: nat) -> nat {
    if kind == 0x34 {
        ((width + 7) / 8) * height
    } else {
        width * height * channels_of(kind)->0 * if maxval < 256 {
            1nat
        } else {
            2nat
        }
    }
}

/// The length of the page whose header ends at `cursor`, once all of it is there.
pub open spec fn page_len(b: Seq<u8>, cursor: int, raster: nat) -> Result<Option<nat>, Seq<char>> {
    if cursor >= b.len() {
        Ok(None)
    } else if !is_blank(b[cursor]) {
        Err("missing raster separator"@)
    } else if raster > usize::MAX {
        Err("raster size overflow"@)
    } else if cursor + 1 + raster > usize::MAX {
        Err("page size overflow"@)
    } else if b.len() < cursor + 1 + raster {
        Ok(None)
    } else {
        Ok(Some((cursor + 1 + raster) as nat))
    }
}

/// The length of the page that bytes begin with, `None` while it is not all there.
pub open spec fn pnm_len(b: Seq<u8>) -> Result<Option<nat>, Seq<char>> {
    if b.len() < 3 {
        Ok(None)
    } else if b[0] != 0x50 {
        Err("missing PNM magic"@)
    } else if channels_of(b[1]) is None {
        Err("unsupported PNM kind P"@.push(b[1] as char))
    } else {
        match number_at(b, 2, "width"@) {
            Err(e) => Err(e),
            Ok(None) => Ok(None),
            Ok(Some((width, c1))) => match number_at(b, c1, "height"@) {
                Err(e) => Err(e),
                Ok(None) => Ok(None),
                Ok(Some((height, c2))) => if b[1] == 0x34 {
                    page_len(b, c2, raster_len(b[1], width, height, 1))
                } else {
                    match number_at(b, c2, "maxval"@) {
                        Err(e) => Err(e),
                        Ok(None) => Ok(None),
                        Ok(Some((maxval, c3))) => page_len(
                            b,
                            c3,
                            raster_len(b[1], width, height, maxval),
                        ),
                    }
                },
            },
        }
    }
}

fn blank(b: u8) -> (r: bool)
    ensures
        r == is_blank(b),
{
    b == 0x20 || b == 0x09 || b == 0x0a || b == 0x0c || b == 0x0d
}

/// The token behind `cursor`, which moves to the token's end.
pub fn next_token<'a>(bytes: &'a [u8], cursor: &mut usize) -> (r: Result<Option<&'a str>, String>)
    requires
        *old(cursor) <= bytes@.len(),
    ensures
        *old(cursor) <= *final(cursor) <= bytes@.len(),
        match token_at(bytes@, *old(cursor) as int) {
            None => r == Ok::<Option<&'a str>, String>(None) && *final(cursor) == bytes@.len(),
            Some((token, end)) => *final(cursor) == end && if valid_utf8(token) {
                r matches Ok(Some(s)) && s@ == decode_utf8(token)
            } else {
                r matches Err(e) && e@ == "header is not valid UTF-8: "@ + utf8_refusal(token)
            },
        },
{
    let ghost b = bytes@;
    let ghost from = *cursor as int;
    let mut i: usize = *cursor;
    let mut skipping = true;
    while skipping
        invariant
            b == bytes@,
            0 <= from <= i <= b.len(),
            token_start(b, from) == token_start(b, i as int),
            !skipping ==> token_start(b, i as int) == i,
        decreases b.len() - i + if skipping {
            1int
        } else {
            0int
        },
    {
        if i >= bytes.len() {
            skipping = false;
        } else if blank(bytes[i]) {
            i = i + 1;
        } else if bytes[i] == 0x23 {
            let mut j: usize = i + 1;
            while j < bytes.len() && bytes[j] != 0x0a
                invariant
                    b == bytes@,
                    i < j <= b.len(),
                    comment_end(b, i + 1) == comment_end(b, j as int),
                decreases b.len() - j,
            {
                j = j + 1;
            }
            i = j;
        } else {
            skipping = false;
        }
    }
    let start: usize = i;
    if start >= bytes.len() {
        *cursor = start;
        return Ok(None);
    }
    let mut end: usize = start;
    while end < bytes.len() && !blank(bytes[end])
        invariant
            b == bytes@,
            start <= end <= b.len(),
            token_end(b, start as int) == token_end(b, end as int),
        decreases b.len() - end,
    {
        end = end + 1;
    }
    *cursor = end;
    let token = slice_subrange(bytes, start, end);
    match text::utf8_text(token) {
        Ok(s) => Ok(Some(s)),
        Err(error) => {
            let mut out = "header is not valid UTF-8: ".to_owned();
            out.append(error.as_str());
            Err(out)
        },
    }
}

fn next_number(bytes: &[u8], cursor: &mut usize, what: &str) -> (r: Result<Option<usize>, String>)
    requires
        *old(cursor) <= bytes@.len(),
    ensures
        *final(cursor) <= bytes@.len(),
        match number_at(bytes@, *old(cursor) as int, what@) {
            Ok(Some((n, end))) => r matches Ok(Some(x)) && x == n && *final(cursor) == end,
            Ok(None) => r == Ok::<Option<usize>, String>(None),
            Err(e) => r matches Err(x) && x@ == e,
        },
{
    match next_token(bytes, cursor) {
        Err(e) => Err(e),
        Ok(None) => Ok(None),
        Ok(Some(token)) => match text::parse_number(token, usize::MAX as u64) {
            Some(n) => Ok(Some(n as usize)),
            None => {
                let mut out = "invalid ".to_owned();
                out.append(what);
                out.append(" ");
                out.append(text::quote(token).as_str());
                Err(out)
            },
        },
    }
}

fn raster_bytes(kind: u8, width: usize, height: usize, maxval: usize) -> (r: Option<usize>)
    requires
        channels_of(kind) is Some,
    ensures
        ({
            let n = raster_len(kind, width as nat, height as nat, maxval as nat);
            match r {
                Some(x) => x == n,
                None => n > usize::MAX,
            }
        }),
{
    if kind == 0x34 {
        let row: usize = width / 8 + if width % 8 == 0 {
            0
        } else {
            1
        };
        assert(row == (width + 7) / 8);
        row.checked_mul(height)
    } else {
        let channels: usize = if kind == 0x35 {
            1
        } else {
            3
        };
        let sample: usize = if maxval < 256 {
            1
        } else {
            2
        };
        let ghost n = width as nat * height as nat;
        match width.checked_mul(height) {
            None => {
                assert(n * channels * sample >= n) by (nonlinear_arith)
                    requires
                        channels >= 1,
                        sample >= 1,
                        n >= 0,
                ;
                None
            },
            Some(pixels) => match pixels.checked_mul(channels) {
                None => {
                    assert(n * channels * sample >= n * channels) by (nonlinear_arith)
                        requires
                            sample >= 1,
                            channels >= 1,
                            n >= 0,
                    ;
                    None
                },
                Some(samples) => samples.checked_mul(sample),
            },
        }
    }
}

/// The length of the page that bytes begin with, `None` while it is not all there.
pub fn complete_pnm_len(bytes: &[u8]) -> (r: Result<Option<usize>, String>)
    ensures
        match pnm_len(bytes@) {
            Ok(Some(n)) => r matches Ok(Some(x)) && x == n && n <= bytes@.len(),
            Ok(None) => r == Ok::<Option<usize>, String>(None),
            Err(e) => r matches Err(x) && x@ == e,
        },
{
    if bytes.len() < 3 {
        return Ok(None);
    }
    if bytes[0] != 0x50 {
        return Err("missing PNM magic".to_owned());
    }
    let kind: u8 = bytes[1];
    if kind != 0x34 && kind != 0x35 && kind != 0x36 {
        let mut out = "unsupported PNM kind P".to_owned();
        out.push(kind as char);
        return Err(out);
    }
    let mut cursor: usize = 2;
    let width: usize = match next_number(bytes, &mut cursor, "width") {
        Err(e) => {
            return Err(e);
        },
        Ok(None) => {
            return Ok(None);
        },
        Ok(Some(n)) => n,
    };
    let height: usize = match next_number(bytes, &mut cursor, "height") {
        Err(e) => {
            return Err(e);
        },
        Ok(None) => {
            return Ok(None);
        },
        Ok(Some(n)) => n,
    };
    let maxval: usize = if kind == 0x34 {
        1
    } else {
        match next_number(bytes, &mut cursor, "maxval") {
            Err(e) => {
                return Err(e);
            },
            Ok(None) => {
                return Ok(None);
            },
            Ok(Some(n)) => n,
        }
    };
    if cursor >= bytes.len() {
        return Ok(None);
    }
    if !blank(bytes[cursor]) {
        return Err("missing raster separator".to_owned());
    }
    let raster: usize = match raster_bytes(kind, width, height, maxval) {
        Some(n) => n,
        None => {
            return Err("raster size overflow".to_owned());
        },
    };
    let total: usize = match (cursor + 1).checked_add(raster) {
        Some(n) => n,
        None => {
            return Err("page size overflow".to_owned());
        },
    };
    if bytes.len() < total {
        Ok(None)
    } else {
        Ok(Some(total))
    }
}

// ------------------------------------------------------------- pages are taken whole

proof fn lemma_bounds(b: Seq<u8>, i: int)
    requires
        0 <= i <= b.len(),
    ensures
        i <= token_start(b, i) <= b.len(),
        i <= token_end(b, i) <= b.len(),
        i < b.len() && !is_blank(b[i]) ==> i < token_end(b, i),
    decreases b.len() - i,
{
    if i < b.len() {
        lemma_comment_end(b, i + 1);
        if is_blank(b[i]) {
            lemma_bounds(b, i + 1);
        } else {
            lemma_bounds(b, i + 1);
            if b[i] == 0x23 {
                lemma_bounds(b, comment_end(b, i + 1));
            }
        }
    }
}

proof fn lemma_start_is_no_blank(b: Seq<u8>, i: int)
    requires
        0 <= i <= b.len(),
        token_start(b, i) < b.len(),
    ensures
        !is_blank(b[token_start(b, i)]),
    decreases b.len() - i,
{
    if i < b.len() {
        lemma_comment_end(b, i + 1);
        if is_blank(b[i]) {
            lemma_start_is_no_blank(b, i + 1);
        } else if b[i] == 0x23 {
            lemma_start_is_no_blank(b, comment_end(b, i + 1));
        }
    }
}

/// The lesser of two positions.
spec fn lesser(a: int, b: int) -> int {
    if a < b {
        a
    } else {
        b
    }
}

proof fn lemma_comment_prefix(b: Seq<u8>, k: int, i: int)
    requires
        0 <= i <= k <= b.len(),
    ensures
        comment_end(b.take(k), i) == lesser(comment_end(b, i), k),
    decreases k - i,
{
    lemma_comment_end(b, i);
    if i < k && b[i] != 0x0a {
        lemma_comment_prefix(b, k, i + 1);
    }
}

proof fn lemma_start_prefix(b: Seq<u8>, k: int, i: int)
    requires
        0 <= i <= k <= b.len(),
    ensures
        token_start(b.take(k), i) == lesser(token_start(b, i), k),
    decreases k - i,
{
    lemma_bounds(b, i);
    if i < k {
        if is_blank(b[i]) {
            lemma_start_prefix(b, k, i + 1);
        } else if b[i] == 0x23 {
            let c = comment_end(b, i + 1);
            lemma_comment_end(b, i + 1);
            lemma_comment_prefix(b, k, i + 1);
            lemma_bounds(b, c);
            if c <= k {
                lemma_start_prefix(b, k, c);
            } else {
                assert(token_start(b.take(k), k) == k);
            }
        }
    }
}

proof fn lemma_end_prefix(b: Seq<u8>, k: int, i: int)
    requires
        0 <= i <= k <= b.len(),
    ensures
        token_end(b.take(k), i) == lesser(token_end(b, i), k),
    decreases k - i,
{
    lemma_bounds(b, i);
    if i < k && !is_blank(b[i]) {
        lemma_end_prefix(b, k, i + 1);
    }
}

/// Whether bytes are digits, behind a plus sign or not.
spec fn number_bytes(t: Seq<u8>) -> bool {
    forall|i: int|
        0 <= i < t.len() ==> 0x30 <= #[trigger] t[i] <= 0x39 || i == 0 && t[i] == 0x2b
}

proof fn lemma_number_bytes(t: Seq<u8>)
    requires
        number_bytes(t),
    ensures
        valid_utf8(t),
        decode_utf8(t) == Seq::new(t.len(), |i: int| t[i] as char),
{
    let s = Seq::new(t.len(), |i: int| t[i] as char);
    assert(vstd::utf8::is_ascii_chars(s)) by {
        assert forall|i: int| 0 <= i < s.len() implies s[i] as nat <= 127 by {
            assert(t[i] <= 0x39);
        }
    }
    vstd::utf8::is_ascii_chars_encode_utf8(s);
    assert(vstd::utf8::encode_utf8(s) =~= t);
    vstd::utf8::encode_utf8_valid_utf8(s);
    vstd::utf8::encode_utf8_decode_utf8(s);
}

/// A number is written in digits, behind a plus sign or not.
proof fn lemma_number_is_digits(t: Seq<u8>)
    requires
        valid_utf8(t),
        parse_unsigned(decode_utf8(t), usize::MAX as nat) is Some,
    ensures
        number_bytes(t),
{
    let s = decode_utf8(t);
    let digits = text::unsigned_part(s);
    vstd::utf8::decode_utf8_encode_utf8(t);
    assert forall|i: int| 0 <= i < s.len() implies #[trigger] text::is_digit(s[i]) || i == 0
        && s[i] == '+' by {
        if s[0] != '+' {
            assert(digits[i] == s[i]);
        } else if i > 0 {
            assert(digits[i - 1] == s[i]);
        }
    }
    assert forall|i: int| 0 <= i < s.len() implies '\0' <= #[trigger] s[i] <= '\u{7f}' by {
        let c: char = s[i];
        assert(text::is_digit(c) || c == '+');
        let n: u32 = c as u32;
        vstd::utf8::char_u32_cast(c, n);
    }
    vstd::utf8::is_ascii_chars_encode_utf8(s);
    assert forall|i: int| 0 <= i < t.len() implies 0x30 <= #[trigger] t[i] <= 0x39 || i == 0
        && t[i] == 0x2b by {
        assert(text::is_digit(s[i]) || i == 0 && s[i] == '+');
        assert(t[i] == s[i] as u8);
    }
}

/// What of a number is left when the bytes end at `k`: nothing, or a number that ends no
/// later than the bytes.
proof fn lemma_number_prefix(b: Seq<u8>, k: int, i: int, what: Seq<char>)
    requires
        0 <= i <= k <= b.len(),
        number_at(b, i, what) matches Ok(Some(_)),
        token_start(b, i) + 1 == k ==> b[token_start(b, i)] != 0x2b,
    ensures
        ({
            let (v, e) = number_at(b, i, what)->Ok_0->Some_0;
            let p = b.take(k);
            &&& i < e <= b.len()
            &&& if e <= k {
                number_at(p, i, what) == Ok::<Option<(nat, int)>, Seq<char>>(Some((v, e)))
            } else {
                ||| number_at(p, i, what) == Ok::<Option<(nat, int)>, Seq<char>>(None)
                ||| number_at(p, i, what) matches Ok(Some((w, end))) && end == k
            }
        }),
{
    let p = b.take(k);
    let start = token_start(b, i);
    let e = token_end(b, start);
    let token = b.subrange(start, e);
    lemma_bounds(b, i);
    lemma_bounds(b, start);
    lemma_start_is_no_blank(b, i);
    lemma_start_prefix(b, k, i);
    lemma_number_is_digits(token);
    if start < k {
        lemma_end_prefix(b, k, start);
        let end = lesser(e, k);
        let part = p.subrange(start, end);
        assert(part =~= token.take(end - start));
        assert forall|j: int| 0 <= j < part.len() implies 0x30 <= #[trigger] part[j] <= 0x39 || j
            == 0 && part[j] == 0x2b by {
            assert(part[j] == token[j]);
        }
        lemma_number_bytes(part);
        lemma_number_bytes(token);
        let s = decode_utf8(token);
        let n = end - start;
        assert(decode_utf8(part) =~= s.take(n));
        assert(token[0] == b[start]);
        let digits = text::unsigned_part(s);
        if s[0] == '+' {
            assert(token[0] == 0x2b) by {
                assert(s[0] == token[0] as char);
            }
            assert(text::unsigned_part(s.take(n)) =~= digits.take(n - 1));
            text::lemma_digits_prefix(digits, n - 1);
        } else {
            assert(s.take(n)[0] == s[0]);
            assert(text::unsigned_part(s.take(n)) =~= digits.take(n));
            text::lemma_digits_prefix(digits, n);
        }
        if e <= k {
            assert(part =~= token);
        }
    }
}

/// A number that ends within the first `k` bytes reads the same there.
proof fn lemma_number_within(b: Seq<u8>, k: int, i: int, what: Seq<char>)
    requires
        0 <= i <= b.len(),
        k <= b.len(),
        number_at(b, i, what) matches Ok(Some((_, e))) && e <= k,
    ensures
        number_at(b.take(k), i, what) == number_at(b, i, what),
{
    let start = token_start(b, i);
    let e = token_end(b, start);
    lemma_token_bounds(b, i);
    lemma_start_prefix(b, k, i);
    lemma_end_prefix(b, k, start);
    assert(b.take(k).subrange(start, e) =~= b.subrange(start, e));
}

/// Where the header of a page ends: at the white space in front of its raster.
pub open spec fn header_end(b: Seq<u8>) -> int {
    let c1 = (number_at(b, 2, "width"@)->Ok_0->Some_0).1;
    let c2 = (number_at(b, c1, "height"@)->Ok_0->Some_0).1;
    if b[1] == 0x34 {
        c2
    } else {
        (number_at(b, c2, "maxval"@)->Ok_0->Some_0).1
    }
}

proof fn lemma_nothing_behind(p: Seq<u8>, what: Seq<char>)
    ensures
        number_at(p, p.len() as int, what) == Ok::<Option<(nat, int)>, Seq<char>>(None),
{
    assert(token_start(p, p.len() as int) == p.len());
}

proof fn lemma_page_is_within(b: Seq<u8>)
    requires
        pnm_len(b) matches Ok(Some(_)),
    ensures
        pnm_len(b)->Ok_0->Some_0 <= b.len(),
        pnm_len(b)->Ok_0->Some_0 > header_end(b),
{
    let (width, c1) = number_at(b, 2, "width"@)->Ok_0->Some_0;
    let (height, c2) = number_at(b, c1, "height"@)->Ok_0->Some_0;
    lemma_token_bounds(b, 2);
    lemma_token_bounds(b, c1);
    if b[1] != 0x34 {
        lemma_token_bounds(b, c2);
    }
    if b[1] == 0x34 {
        assert(page_len(b, c2, raster_len(b[1], width, height, 1)) matches Ok(Some(_)));
    } else {
        let (maxval, c3) = number_at(b, c2, "maxval"@)->Ok_0->Some_0;
        assert(page_len(b, c3, raster_len(b[1], width, height, maxval)) matches Ok(Some(_)));
    }
}

/// Whether the bytes end right behind the plus sign that a number of the header begins with.
pub open spec fn cuts_a_sign(b: Seq<u8>, k: int) -> bool {
    let c1 = (number_at(b, 2, "width"@)->Ok_0->Some_0).1;
    let c2 = (number_at(b, c1, "height"@)->Ok_0->Some_0).1;
    &&& 0 < k <= b.len() && b[k - 1] == 0x2b
    &&& {
        ||| token_start(b, 2) == k - 1
        ||| token_start(b, c1) == k - 1
        ||| b[1] != 0x34 && token_start(b, c2) == k - 1
    }
}

/// A page is not taken before its last byte is there: what is there of it is no page yet, and
/// no error either, unless the bytes end right behind the plus sign that a number of the
/// header begins with.
pub proof fn law_no_page_before_its_last_byte(b: Seq<u8>, k: int)
    requires
        pnm_len(b) matches Ok(Some(n)) && 0 <= k < n,
    ensures
        !(pnm_len(b.take(k)) matches Ok(Some(_))),
        !cuts_a_sign(b, k) ==> pnm_len(b.take(k)) == Ok::<Option<nat>, Seq<char>>(None),
{
    let p = b.take(k);
    lemma_page_is_within(b);
    if pnm_len(p) matches Ok(Some(_)) {
        law_bytes_behind_a_page_change_nothing(p, b.skip(k));
        assert(p + b.skip(k) =~= b);
        lemma_page_is_within(p);
    }
    if k >= 3 && !cuts_a_sign(b, k) {
        lemma_header_prefix(b, k);
        let c1 = (number_at(b, 2, "width"@)->Ok_0->Some_0).1;
        let c2 = (number_at(b, c1, "height"@)->Ok_0->Some_0).1;
        lemma_nothing_behind(p, "height"@);
        lemma_nothing_behind(p, "maxval"@);
        if c1 <= k && c2 <= k {
            let c3 = header_end(b);
            if c3 <= k {
                assert(c3 < k ==> p[c3] == b[c3]);
            }
        }
    }
}

/// How the numbers of a header read when the bytes end at `k`.
proof fn lemma_header_prefix(b: Seq<u8>, k: int)
    requires
        pnm_len(b) matches Ok(Some(_)),
        3 <= k <= b.len(),
        !cuts_a_sign(b, k),
    ensures
        ({
            let p = b.take(k);
            let (v1, c1) = number_at(b, 2, "width"@)->Ok_0->Some_0;
            let (v2, c2) = number_at(b, c1, "height"@)->Ok_0->Some_0;
            let w = number_at(p, 2, "width"@);
            let h = number_at(p, c1, "height"@);
            let none = Ok::<Option<(nat, int)>, Seq<char>>(None);
            &&& 2 < c1 < c2 <= b.len()
            &&& if c1 > k {
                w == none || (w matches Ok(Some((_, end))) && end == k)
            } else {
                &&& w == number_at(b, 2, "width"@)
                &&& if c2 > k {
                    h == none || (h matches Ok(Some((_, end))) && end == k)
                } else {
                    &&& h == number_at(b, c1, "height"@)
                    &&& b[1] != 0x34 ==> {
                        let (v3, c3) = number_at(b, c2, "maxval"@)->Ok_0->Some_0;
                        let m = number_at(p, c2, "maxval"@);
                        &&& c2 < c3 <= b.len()
                        &&& if c3 > k {
                            m == none || (m matches Ok(Some((_, end))) && end == k)
                        } else {
                            m == number_at(b, c2, "maxval"@)
                        }
                    }
                }
            }
        }),
{
    let (v1, c1) = number_at(b, 2, "width"@)->Ok_0->Some_0;
    let (v2, c2) = number_at(b, c1, "height"@)->Ok_0->Some_0;
    lemma_token_bounds(b, 2);
    lemma_token_bounds(b, c1);
    if b[1] != 0x34 {
        lemma_token_bounds(b, c2);
    }
    lemma_number_prefix(b, k, 2, "width"@);
    if c1 <= k {
        lemma_number_prefix(b, k, c1, "height"@);
        if c2 <= k && b[1] != 0x34 {
            lemma_number_prefix(b, k, c2, "maxval"@);
        }
    }
}

proof fn lemma_token_bounds(b: Seq<u8>, i: int)
    requires
        0 <= i <= b.len(),
        token_at(b, i) is Some,
    ensures
        i <= token_start(b, i) < (token_at(b, i)->0).1 <= b.len(),
{
    lemma_bounds(b, i);
    lemma_start_is_no_blank(b, i);
    lemma_bounds(b, token_start(b, i));
}

/// A page is all there as soon as its last byte is: with any of the bytes behind it, or none,
/// it is the same page.
pub proof fn law_a_page_is_there_from_its_last_byte(b: Seq<u8>, k: int)
    requires
        pnm_len(b) matches Ok(Some(n)) && n <= k <= b.len(),
    ensures
        pnm_len(b.take(k)) == pnm_len(b),
{
    let p = b.take(k);
    let (v1, c1) = number_at(b, 2, "width"@)->Ok_0->Some_0;
    let (v2, c2) = number_at(b, c1, "height"@)->Ok_0->Some_0;
    lemma_page_is_within(b);
    lemma_token_bounds(b, 2);
    lemma_token_bounds(b, c1);
    if b[1] != 0x34 {
        lemma_token_bounds(b, c2);
        lemma_number_within(b, k, c2, "maxval"@);
    }
    lemma_number_within(b, k, 2, "width"@);
    lemma_number_within(b, k, c1, "height"@);
    assert(p[header_end(b)] == b[header_end(b)]);
}

/// A number that ends before the bytes do reads the same with more bytes behind them.
proof fn lemma_number_with_more(b: Seq<u8>, more: Seq<u8>, i: int, what: Seq<char>)
    requires
        0 <= i <= b.len(),
        number_at(b, i, what) matches Ok(Some((_, e))) && e < b.len(),
    ensures
        number_at(b + more, i, what) == number_at(b, i, what),
{
    let longer = b + more;
    let k = b.len() as int;
    let start = token_start(b, i);
    let e = token_end(b, start);
    assert(longer.take(k) =~= b);
    lemma_token_bounds(b, i);
    lemma_start_prefix(longer, k, i);
    lemma_end_prefix(longer, k, start);
    assert(longer.subrange(start, e) =~= b.subrange(start, e));
}

/// Once a page is all there, more bytes behind it change nothing.
pub proof fn law_bytes_behind_a_page_change_nothing(b: Seq<u8>, more: Seq<u8>)
    requires
        pnm_len(b) matches Ok(Some(_)),
    ensures
        pnm_len(b + more) == pnm_len(b),
{
    let longer = b + more;
    let (v1, c1) = number_at(b, 2, "width"@)->Ok_0->Some_0;
    let (v2, c2) = number_at(b, c1, "height"@)->Ok_0->Some_0;
    lemma_page_is_within(b);
    lemma_token_bounds(b, 2);
    lemma_token_bounds(b, c1);
    if b[1] != 0x34 {
        lemma_token_bounds(b, c2);
        lemma_number_with_more(b, more, c2, "maxval"@);
    }
    lemma_number_with_more(b, more, 2, "width"@);
    lemma_number_with_more(b, more, c1, "height"@);
    assert(longer[0] == b[0] && longer[1] == b[1]);
    assert(longer[header_end(b)] == b[header_end(b)]);
}

// ------------------------------------------------------ pages as their headers spell them

/// What can stand between the numbers of a header: a byte of white space, or a comment up to
/// the end of its line.
pub enum Gap {
    Blank(u8),
    Comment(Seq<u8>),
}

/// The bytes of what stands between two numbers.
pub open spec fn gap_bytes(gaps: Seq<Gap>) -> Seq<u8>
    decreases gaps.len(),
{
    if gaps.len() == 0 {
        seq![]
    } else {
        (match gaps[0] {
            Gap::Blank(b) => seq![b],
            Gap::Comment(c) => seq![0x23u8] + c + seq![0x0au8],
        }) + gap_bytes(gaps.drop_first())
    }
}

/// Whether everything between two numbers is white space, or a comment on one line.
pub open spec fn is_gap(gaps: Seq<Gap>) -> bool {
    forall|i: int|
        0 <= i < gaps.len() ==> match #[trigger] gaps[i] {
            Gap::Blank(b) => b == 0x20 || b == 0x09 || b == 0x0a || b == 0x0c || b == 0x0d,
            Gap::Comment(c) => !c.contains(0x0a),
        }
}

/// Whether a gap can stand behind a number: it begins with white space.
pub open spec fn parts(gaps: Seq<Gap>) -> bool {
    is_gap(gaps) && gaps.len() > 0 && gaps[0] is Blank
}

/// A number in decimal digits, as bytes.
pub open spec fn digits_of(n: nat) -> Seq<u8> {
    vstd::utf8::encode_utf8(decimal(n))
}

/// The header of a page in gray or colour, up to the white space in front of its raster.
pub open spec fn header(
    kind: u8,
    g1: Seq<Gap>,
    width: nat,
    g2: Seq<Gap>,
    height: nat,
    g3: Seq<Gap>,
    maxval: nat,
) -> Seq<u8> {
    seq![0x50u8, kind] + (gap_bytes(g1) + (digits_of(width) + (gap_bytes(g2) + (digits_of(height)
        + (gap_bytes(g3) + digits_of(maxval))))))
}

/// The header of a bitmap, up to the white space in front of its raster.
pub open spec fn bitmap_header(
    g1: Seq<Gap>,
    width: nat,
    g2: Seq<Gap>,
    height: nat,
) -> Seq<u8> {
    seq![0x50u8, 0x34u8] + (gap_bytes(g1) + (digits_of(width) + (gap_bytes(g2) + digits_of(
        height,
    ))))
}

proof fn lemma_digits_of(n: nat)
    ensures
        digits_of(n).len() > 0,
        forall|i: int| 0 <= i < digits_of(n).len() ==> 0x30 <= #[trigger] digits_of(n)[i] <= 0x39,
        valid_utf8(digits_of(n)),
        decode_utf8(digits_of(n)) == decimal(n),
        n <= usize::MAX ==> parse_unsigned(decode_utf8(digits_of(n)), usize::MAX as nat) == Some(n),
{
    let d = decimal(n);
    text::lemma_decimal_reads_back(n);
    assert forall|i: int| 0 <= i < d.len() implies '\0' <= #[trigger] d[i] <= '\u{7f}' by {
        let c: char = d[i];
        assert(text::is_digit(c));
        let u: u32 = c as u32;
        vstd::utf8::char_u32_cast(c, u);
    }
    vstd::utf8::is_ascii_chars_encode_utf8(d);
    vstd::utf8::encode_utf8_valid_utf8(d);
    vstd::utf8::encode_utf8_decode_utf8(d);
    assert forall|i: int| 0 <= i < digits_of(n).len() implies 0x30 <= #[trigger] digits_of(n)[i]
        <= 0x39 by {
        assert(text::is_digit(d[i]));
        assert(digits_of(n)[i] == d[i] as u8);
    }
    if n <= usize::MAX {
        text::lemma_decimal_parses(n, usize::MAX as nat);
    }
}

proof fn lemma_comment_ends(b: Seq<u8>, i: int, k: int)
    requires
        0 <= i <= k < b.len(),
        b[k] == 0x0a,
        forall|j: int| i <= j < k ==> #[trigger] b[j] != 0x0a,
    ensures
        comment_end(b, i) == k,
    decreases k - i,
{
    if i < k {
        assert(b[i] != 0x0a);
        lemma_comment_ends(b, i + 1, k);
    }
}

proof fn lemma_gap_is_skipped(b: Seq<u8>, i: int, gaps: Seq<Gap>, rest: Seq<u8>)
    requires
        0 <= i <= b.len(),
        b.skip(i) == gap_bytes(gaps) + rest,
        is_gap(gaps),
        rest.len() > 0,
        !is_blank(rest[0]),
        rest[0] != 0x23,
    ensures
        token_start(b, i) == i + gap_bytes(gaps).len(),
        b.skip(i + gap_bytes(gaps).len()) == rest,
        i + gap_bytes(gaps).len() < b.len(),
    decreases gaps.len(),
{
    let all = b.skip(i);
    assert(all.len() == b.len() - i);
    assert(b.skip(i + gap_bytes(gaps).len()) =~= rest) by {
        assert(all.skip(gap_bytes(gaps).len() as int) =~= rest);
        assert(all.skip(gap_bytes(gaps).len() as int) =~= b.skip(i + gap_bytes(gaps).len()));
    }
    if gaps.len() == 0 {
        assert(all =~= rest);
        assert(b[i] == all[0]);
    } else {
        let more = gaps.drop_first();
        let one = match gaps[0] {
            Gap::Blank(x) => seq![x],
            Gap::Comment(c) => seq![0x23u8] + c + seq![0x0au8],
        };
        assert(gap_bytes(gaps) == one + gap_bytes(more));
        assert forall|k: int| 0 <= k < more.len() implies match #[trigger] more[k] {
            Gap::Blank(x) => x == 0x20 || x == 0x09 || x == 0x0a || x == 0x0c || x == 0x0d,
            Gap::Comment(c) => !c.contains(0x0a),
        } by {
            assert(more[k] == gaps[k + 1]);
        }
        let n = one.len() as int;
        assert(b.skip(i + n) =~= gap_bytes(more) + rest) by {
            assert(all.skip(n) =~= gap_bytes(more) + rest);
            assert(all.skip(n) =~= b.skip(i + n));
        }
        lemma_gap_is_skipped(b, i + n, more, rest);
        assert(all[0] == one[0] && b[i] == all[0]);
        match gaps[0] {
            Gap::Blank(x) => {},
            Gap::Comment(c) => {
                assert forall|j: int| i + 1 <= j < i + n - 1 implies #[trigger] b[j] != 0x0a by {
                    assert(b[j] == all[j - i]);
                    assert(all[j - i] == one[j - i]);
                    assert(one[j - i] == c[j - i - 1]);
                    assert(c.contains(c[j - i - 1]));
                }
                assert(b[i + n - 1] == all[n - 1] && all[n - 1] == one[n - 1] && one[n - 1]
                    == 0x0a);
                lemma_comment_ends(b, i + 1, i + n - 1);
                lemma_bounds(b, i + n - 1);
                assert(is_blank(b[i + n - 1]));
                assert(token_start(b, i + n - 1) == token_start(b, i + n));
            },
        }
    }
}

proof fn lemma_token_runs(b: Seq<u8>, i: int, k: int)
    requires
        0 <= i <= k <= b.len(),
        forall|j: int| i <= j < k ==> !is_blank(#[trigger] b[j]),
        k < b.len() ==> is_blank(b[k]),
    ensures
        token_end(b, i) == k,
    decreases k - i,
{
    if i < k {
        assert(!is_blank(b[i]));
        lemma_token_runs(b, i + 1, k);
    }
}

/// What stands at a place in the bytes of a header: a gap, a token and the rest.
proof fn lemma_token_is_read(
    b: Seq<u8>,
    i: int,
    gaps: Seq<Gap>,
    token: Seq<u8>,
    rest: Seq<u8>,
)
    requires
        0 <= i <= b.len(),
        b.skip(i) == gap_bytes(gaps) + (token + rest),
        is_gap(gaps),
        token.len() > 0,
        token[0] != 0x23,
        forall|j: int| 0 <= j < token.len() ==> !is_blank(#[trigger] token[j]),
        rest.len() > 0 ==> is_blank(rest[0]),
    ensures
        ({
            let end = i + gap_bytes(gaps).len() + token.len();
            &&& end <= b.len()
            &&& token_at(b, i) == Some((token, end))
            &&& b.skip(end) == rest
        }),
{
    let tail = token + rest;
    let start = i + gap_bytes(gaps).len();
    let end = start + token.len();
    assert(!is_blank(token[0]));
    lemma_gap_is_skipped(b, i, gaps, tail);
    let all = b.skip(start);
    assert(all.len() == b.len() - start);
    assert forall|j: int| start <= j < end implies !is_blank(#[trigger] b[j]) by {
        assert(b[j] == all[j - start]);
        assert(all[j - start] == token[j - start]);
    }
    if end < b.len() {
        assert(b[end] == all[end - start]);
        assert(all[end - start] == rest[0]);
    }
    lemma_token_runs(b, start, end);
    assert(b.subrange(start, end) =~= token) by {
        assert forall|j: int| 0 <= j < token.len() implies b.subrange(start, end)[j] == token[j] by {
            assert(b[start + j] == all[j]);
        }
    }
    assert(b.skip(end) =~= rest) by {
        assert(all.skip(token.len() as int) =~= rest);
        assert(all.skip(token.len() as int) =~= b.skip(end));
    }
}

proof fn lemma_number_is_read(
    b: Seq<u8>,
    i: int,
    gaps: Seq<Gap>,
    n: nat,
    rest: Seq<u8>,
    what: Seq<char>,
)
    requires
        0 <= i <= b.len(),
        b.skip(i) == gap_bytes(gaps) + (digits_of(n) + rest),
        is_gap(gaps),
        rest.len() > 0 ==> is_blank(rest[0]),
        n <= usize::MAX,
    ensures
        ({
            let end = i + gap_bytes(gaps).len() + digits_of(n).len();
            &&& end <= b.len()
            &&& number_at(b, i, what) == Ok::<Option<(nat, int)>, Seq<char>>(Some((n, end)))
            &&& b.skip(end) == rest
        }),
{
    lemma_digits_of(n);
    assert forall|j: int| 0 <= j < digits_of(n).len() implies !is_blank(
        #[trigger] digits_of(n)[j],
    ) by {
        assert(0x30 <= digits_of(n)[j] <= 0x39);
    }
    lemma_token_is_read(b, i, gaps, digits_of(n), rest);
}

proof fn lemma_gap_begins(gaps: Seq<Gap>, rest: Seq<u8>)
    requires
        parts(gaps),
    ensures
        (gap_bytes(gaps) + rest).len() > 0,
        is_blank((gap_bytes(gaps) + rest)[0]),
{
    match gaps[0] {
        Gap::Blank(x) => {
            assert(gap_bytes(gaps) == seq![x] + gap_bytes(gaps.drop_first()));
            assert((gap_bytes(gaps) + rest)[0] == x);
        },
        Gap::Comment(_) => {},
    }
}

#[verifier::rlimit(40)]
proof fn lemma_header_is_read(
    kind: u8,
    g1: Seq<Gap>,
    width: nat,
    g2: Seq<Gap>,
    height: nat,
    g3: Seq<Gap>,
    maxval: nat,
    separator: u8,
    raster: Seq<u8>,
)
    requires
        is_gap(g1) && parts(g2) && parts(g3),
        width <= usize::MAX && height <= usize::MAX && maxval <= usize::MAX,
        is_blank(separator),
    ensures
        ({
            let front = header(kind, g1, width, g2, height, g3, maxval).push(separator);
            let b = front + raster;
            let c1: int = 2int + gap_bytes(g1).len() + digits_of(width).len();
            let c2: int = c1 + gap_bytes(g2).len() + digits_of(height).len();
            let c3: int = c2 + gap_bytes(g3).len() + digits_of(maxval).len();
            &&& b.len() >= 3 && b[0] == 0x50 && b[1] == kind
            &&& number_at(b, 2, "width"@) == Ok::<Option<(nat, int)>, Seq<char>>(Some((width, c1)))
            &&& number_at(b, c1, "height"@) == Ok::<Option<(nat, int)>, Seq<char>>(
                Some((height, c2)),
            )
            &&& number_at(b, c2, "maxval"@) == Ok::<Option<(nat, int)>, Seq<char>>(
                Some((maxval, c3)),
            )
            &&& front.len() == c3 + 1
            &&& c3 < b.len() && b[c3] == separator
        }),
{
    let front = header(kind, g1, width, g2, height, g3, maxval).push(separator);
    let b = front + raster;
    let end = seq![separator] + raster;
    let r3 = gap_bytes(g3) + (digits_of(maxval) + end);
    let r2 = gap_bytes(g2) + (digits_of(height) + r3);
    let r1 = gap_bytes(g1) + (digits_of(width) + r2);
    assert(b =~= seq![0x50u8, kind] + r1);
    assert(b.skip(2) =~= r1);
    lemma_digits_of(width);
    lemma_gap_begins(g2, digits_of(height) + r3);
    lemma_gap_begins(g3, digits_of(maxval) + end);
    lemma_number_is_read(b, 2, g1, width, r2, "width"@);
    let c1: int = 2int + gap_bytes(g1).len() + digits_of(width).len();
    lemma_number_is_read(b, c1, g2, height, r3, "height"@);
    let c2: int = c1 + gap_bytes(g2).len() + digits_of(height).len();
    lemma_number_is_read(b, c2, g3, maxval, end, "maxval"@);
    let c3: int = c2 + gap_bytes(g3).len() + digits_of(maxval).len();
    assert(b.skip(c3)[0] == b[c3]);
    assert(front.len() == c3 + 1);
}

/// A page in gray or colour is all there with exactly so many bytes behind the white space
/// that ends its header: the width times the height that the header spells, times one for gray
/// and three for colour, times one where the largest sample fits a byte and else two. However
/// its numbers are set apart, with fewer bytes it is waited for, and more are not part of it.
pub proof fn law_a_page_is_as_large_as_its_header_says(
    kind: u8,
    g1: Seq<Gap>,
    width: nat,
    g2: Seq<Gap>,
    height: nat,
    g3: Seq<Gap>,
    maxval: nat,
    separator: u8,
    raster: Seq<u8>,
)
    requires
        kind == 0x35 || kind == 0x36,
        is_gap(g1) && parts(g2) && parts(g3),
        width <= usize::MAX && height <= usize::MAX && maxval <= usize::MAX,
        separator == 0x20 || separator == 0x09 || separator == 0x0a || separator == 0x0c
            || separator == 0x0d,
    ensures
        ({
            let front = header(kind, g1, width, g2, height, g3, maxval).push(separator);
            let bytes: int = width * height * (if kind == 0x36 {
                3int
            } else {
                1int
            }) * (if maxval < 256 {
                1int
            } else {
                2int
            });
            let said = pnm_len(front + raster);
            if bytes > usize::MAX {
                said == Err::<Option<nat>, Seq<char>>("raster size overflow"@)
            } else if front.len() + bytes > usize::MAX {
                said == Err::<Option<nat>, Seq<char>>("page size overflow"@)
            } else if raster.len() < bytes {
                said == Ok::<Option<nat>, Seq<char>>(None)
            } else {
                said == Ok::<Option<nat>, Seq<char>>(Some((front.len() + bytes) as nat))
            }
        }),
{
    let front = header(kind, g1, width, g2, height, g3, maxval).push(separator);
    lemma_header_is_read(kind, g1, width, g2, height, g3, maxval, separator, raster);
    assert((front + raster).len() == front.len() + raster.len());
}

/// A bitmap is all there with exactly so many bytes behind the white space that ends its
/// header: as many as hold the bits of one row, for each row.
#[verifier::rlimit(40)]
pub proof fn law_a_bitmap_is_as_large_as_its_header_says(
    g1: Seq<Gap>,
    width: nat,
    g2: Seq<Gap>,
    height: nat,
    separator: u8,
    raster: Seq<u8>,
    row: nat,
)
    requires
        is_gap(g1) && parts(g2),
        width <= usize::MAX && height <= usize::MAX,
        separator == 0x20 || separator == 0x09 || separator == 0x0a || separator == 0x0c
            || separator == 0x0d,
        // A row takes the fewest bytes that hold its bits.
        width <= 8 * row < width + 8,
    ensures
        ({
            let front = bitmap_header(g1, width, g2, height).push(separator);
            let bytes: int = (row * height) as int;
            let said = pnm_len(front + raster);
            if bytes > usize::MAX {
                said == Err::<Option<nat>, Seq<char>>("raster size overflow"@)
            } else if front.len() + bytes > usize::MAX {
                said == Err::<Option<nat>, Seq<char>>("page size overflow"@)
            } else if raster.len() < bytes {
                said == Ok::<Option<nat>, Seq<char>>(None)
            } else {
                said == Ok::<Option<nat>, Seq<char>>(Some((front.len() + bytes) as nat))
            }
        }),
{
    let front = bitmap_header(g1, width, g2, height).push(separator);
    let b = front + raster;
    let end = seq![separator] + raster;
    let r2 = gap_bytes(g2) + (digits_of(height) + end);
    let r1 = gap_bytes(g1) + (digits_of(width) + r2);
    assert(b =~= seq![0x50u8, 0x34u8] + r1);
    assert(b.skip(2) =~= r1);
    assert(row == (width + 7) / 8);
    lemma_digits_of(width);
    lemma_gap_begins(g2, digits_of(height) + end);
    lemma_number_is_read(b, 2, g1, width, r2, "width"@);
    let c1: int = 2int + gap_bytes(g1).len() + digits_of(width).len();
    lemma_number_is_read(b, c1, g2, height, end, "height"@);
    let c2: int = c1 + gap_bytes(g2).len() + digits_of(height).len();
    assert(b.skip(c2)[0] == b[c2]);
    assert(front.len() == c2 + 1);
    assert(b.len() == front.len() + raster.len());
}

/// What is no page is refused as soon as that can be seen, and never before: bytes that do not
/// begin with a `P`, a kind other than the three, and a token where a number should be that is
/// none, each with what is wrong with it.
#[verifier::rlimit(40)]
pub proof fn law_what_is_no_page_is_refused(
    b: Seq<u8>,
    kind: u8,
    g1: Seq<Gap>,
    token: Seq<u8>,
    rest: Seq<u8>,
    g2: Seq<Gap>,
    width: nat,
    g3: Seq<Gap>,
    height: nat,
)
    requires
        kind == 0x34 || kind == 0x35 || kind == 0x36,
        is_gap(g1) && parts(g2) && parts(g3),
        width <= usize::MAX && height <= usize::MAX,
        token.len() > 0 && token[0] != 0x23,
        forall|j: int| 0 <= j < token.len() ==> !is_blank(#[trigger] token[j]),
        rest.len() > 0 ==> is_blank(rest[0]),
        !(valid_utf8(token) && parse_unsigned(decode_utf8(token), usize::MAX as nat) is Some),
    ensures
        b.len() < 3 ==> pnm_len(b) == Ok::<Option<nat>, Seq<char>>(None),
        b.len() >= 3 && b[0] != 0x50 ==> pnm_len(b) == Err::<Option<nat>, Seq<char>>(
            "missing PNM magic"@,
        ),
        b.len() >= 3 && b[0] == 0x50 && b[1] != 0x34 && b[1] != 0x35 && b[1] != 0x36 ==> pnm_len(b)
            == Err::<Option<nat>, Seq<char>>("unsupported PNM kind P"@.push(b[1] as char)),
        ({
            let why = |what: Seq<char>|
                if valid_utf8(token) {
                    "invalid "@ + what + " "@ + quoted(decode_utf8(token))
                } else {
                    "header is not valid UTF-8: "@ + utf8_refusal(token)
                };
            let first = seq![0x50u8, kind] + (gap_bytes(g1) + (token + rest));
            let second = seq![0x50u8, kind] + (gap_bytes(g1) + (digits_of(width) + (gap_bytes(g2)
                + (token + rest))));
            let third = seq![0x50u8, kind] + (gap_bytes(g1) + (digits_of(width) + (gap_bytes(g2)
                + (digits_of(height) + (gap_bytes(g3) + (token + rest))))));
            &&& pnm_len(first) == Err::<Option<nat>, Seq<char>>(why("width"@))
            &&& pnm_len(second) == Err::<Option<nat>, Seq<char>>(why("height"@))
            &&& kind != 0x34 ==> pnm_len(third) == Err::<Option<nat>, Seq<char>>(why("maxval"@))
        }),
{
    let tail = token + rest;
    let first = seq![0x50u8, kind] + (gap_bytes(g1) + tail);
    assert(first.skip(2) =~= gap_bytes(g1) + tail);
    lemma_token_is_read(first, 2, g1, token, rest);
    let r2 = gap_bytes(g2) + tail;
    let second = seq![0x50u8, kind] + (gap_bytes(g1) + (digits_of(width) + r2));
    assert(second.skip(2) =~= gap_bytes(g1) + (digits_of(width) + r2));
    lemma_digits_of(width);
    lemma_digits_of(height);
    lemma_gap_begins(g2, tail);
    lemma_number_is_read(second, 2, g1, width, r2, "width"@);
    let c1: int = 2int + gap_bytes(g1).len() + digits_of(width).len();
    lemma_token_is_read(second, c1, g2, token, rest);
    let t3 = gap_bytes(g3) + tail;
    let t2 = gap_bytes(g2) + (digits_of(height) + t3);
    let third = seq![0x50u8, kind] + (gap_bytes(g1) + (digits_of(width) + t2));
    assert(third.skip(2) =~= gap_bytes(g1) + (digits_of(width) + t2));
    lemma_gap_begins(g2, digits_of(height) + t3);
    lemma_gap_begins(g3, tail);
    lemma_number_is_read(third, 2, g1, width, t2, "width"@);
    lemma_number_is_read(third, c1, g2, height, t3, "height"@);
    let c2: int = c1 + gap_bytes(g2).len() + digits_of(height).len();
    lemma_token_is_read(third, c2, g3, token, rest);
}

/// A page that is taken is exactly as large as the numbers in its header say, wherever and
/// however they stand in it.
#[verifier::rlimit(40)]
pub proof fn law_a_page_taken_is_as_large_as_its_numbers_say(b: Seq<u8>)
    requires
        pnm_len(b) matches Ok(Some(_)),
    ensures
        ({
            let n = pnm_len(b)->Ok_0->Some_0;
            let (w, c1) = number_at(b, 2, "width"@)->Ok_0->Some_0;
            let (h, c2) = number_at(b, c1, "height"@)->Ok_0->Some_0;
            let (m, c3) = number_at(b, c2, "maxval"@)->Ok_0->Some_0;
            let bytes = if m < 256 {
                1int
            } else {
                2int
            };
            &&& n <= b.len()
            &&& b[0] == 0x50 && (b[1] == 0x34 || b[1] == 0x35 || b[1] == 0x36)
            &&& b[1] == 0x35 ==> n == c3 + 1 + w * h * bytes
            &&& b[1] == 0x36 ==> n == c3 + 1 + w * h * 3 * bytes
            &&& b[1] == 0x34 ==> n == c2 + 1 + ((w + 7) / 8) * h
        }),
{
    lemma_page_is_within(b);
    let (w, c1) = number_at(b, 2, "width"@)->Ok_0->Some_0;
    let (h, c2) = number_at(b, c1, "height"@)->Ok_0->Some_0;
    lemma_token_bounds(b, 2);
    lemma_token_bounds(b, c1);
    if b[1] == 0x34 {
        let raster = raster_len(b[1], w, h, 1);
        assert(pnm_len(b) == page_len(b, c2, raster));
    } else {
        lemma_token_bounds(b, c2);
        let (m, c3) = number_at(b, c2, "maxval"@)->Ok_0->Some_0;
        let raster = raster_len(b[1], w, h, m);
        let bytes: int = if m < 256 {
            1int
        } else {
            2int
        };
        let area: nat = w * h;
        assert(pnm_len(b) == page_len(b, c3, raster));
        assert(b[1] == 0x35 ==> raster == area * 1 * bytes);
        assert(b[1] == 0x36 ==> raster == area * 3 * bytes);
        assert(area * 1 * bytes == area * bytes);
    }
}

// ------------------------------------------------------------------------------ the batch

/// What a look at a page's file shows.
#[derive(Debug, Clone, PartialEq, Eq)]
pub enum PageLook {
    /// All of the page is there.
    Complete,
    /// Not all of it yet.
    Incomplete,
    /// It will never be a page; the sentence says why.
    Invalid(String),
}

/// What the bytes of a page's file show.
pub fn look_at_page(path: &str, bytes: &[u8]) -> (r: PageLook)
    ensures
        match pnm_len(bytes@) {
            Ok(Some(_)) => r is Complete,
            Ok(None) => r is Incomplete,
            Err(e) => r matches PageLook::Invalid(s) && s@
                == "scanimage wrote an invalid PNM page "@ + path@ + ": "@ + e,
        },
{
    match complete_pnm_len(bytes) {
        Ok(Some(_)) => PageLook::Complete,
        Ok(None) => PageLook::Incomplete,
        Err(error) => {
            let mut out = "scanimage wrote an invalid PNM page ".to_owned();
            out.append(path);
            out.append(": ");
            out.append(error.as_str());
            PageLook::Invalid(out)
        },
    }
}

/// How far a batch has come.
#[derive(Debug, Clone, Copy, PartialEq, Eq, Structural)]
pub struct Batch {
    /// The number of the page that is waited for; the first is 1.
    pub next_page: u32,
    /// Whether the process has ended.
    pub exited: bool,
}

/// What was seen of a batch.
#[derive(Debug, Clone, Copy, PartialEq, Eq, Structural)]
pub enum Seen {
    /// Somebody still takes pages.
    ReceiverOpen,
    /// Nobody takes pages any more.
    ReceiverClosed,
    /// The page waited for is all there.
    PageComplete,
    /// The page waited for is not there, or not all of it.
    PageMissing,
    /// The page was handed over.
    PageSent,
    /// The page could not be handed over.
    PageRefused,
    /// The process runs.
    ChildRunning,
    /// The process has ended.
    ChildExited,
    /// The process cannot be asked.
    ChildLost,
}

/// What to do next in a batch.
#[derive(Debug, Clone, Copy, PartialEq, Eq, Structural)]
pub enum Step {
    /// Look for the page with this number.
    ReadPage(u32),
    /// Hand the page over, under this index.
    SendPage(u32),
    /// Ask whether the process runs.
    PollChild,
    /// Wait, then see whether anybody still takes pages.
    Pause,
    /// Stop the process and end, without an error.
    Abandon,
    /// Stop the process and report that it cannot be asked.
    FailPoll,
    /// Report that the page could not be handed over.
    FailSend,
    /// End, all pages handed over.
    Finish,
}

/// What a batch becomes when something is seen, and what to do then.
pub open spec fn batch_step(batch: Batch, seen: Seen) -> (Batch, Step) {
    match seen {
        Seen::ReceiverOpen => (batch, Step::ReadPage(batch.next_page)),
        Seen::ReceiverClosed => (batch, Step::Abandon),
        Seen::PageComplete => (batch, Step::SendPage((batch.next_page - 1) as u32)),
        Seen::PageMissing => (
            batch,
            if batch.exited {
                Step::Finish
            } else {
                Step::PollChild
            },
        ),
        Seen::PageSent => {
            let next = Batch { next_page: (batch.next_page + 1) as u32, ..batch };
            (next, Step::ReadPage(next.next_page))
        },
        Seen::PageRefused => (batch, Step::FailSend),
        Seen::ChildRunning => (batch, Step::Pause),
        Seen::ChildExited => (Batch { exited: true, ..batch }, Step::ReadPage(batch.next_page)),
        Seen::ChildLost => (batch, Step::FailPoll),
    }
}

impl Batch {
    /// A batch of which no page has been seen.
    pub fn new() -> (r: Self)
        ensures
            r == (Batch { next_page: 1, exited: false }),
    {
        Batch { next_page: 1, exited: false }
    }

    /// Takes note of what was seen, and says what to do next.
    pub fn step(&mut self, seen: Seen) -> (r: Step)
        requires
            1 <= old(self).next_page < u32::MAX,
        ensures
            (*final(self), r) == batch_step(*old(self), seen),
    {
        match seen {
            Seen::ReceiverOpen => Step::ReadPage(self.next_page),
            Seen::ReceiverClosed => Step::Abandon,
            Seen::PageComplete => Step::SendPage(self.next_page - 1),
            Seen::PageMissing => if self.exited {
                Step::Finish
            } else {
                Step::PollChild
            },
            Seen::PageSent => {
                self.next_page = self.next_page + 1;
                Step::ReadPage(self.next_page)
            },
            Seen::PageRefused => Step::FailSend,
            Seen::ChildRunning => Step::Pause,
            Seen::ChildExited => {
                self.exited = true;
                Step::ReadPage(self.next_page)
            },
            Seen::ChildLost => Step::FailPoll,
        }
    }
}

/// What a batch becomes when several things are seen, one after the other.
pub open spec fn batch_after(seen: Seq<Seen>) -> Batch
    decreases seen.len(),
{
    if seen.len() == 0 {
        Batch { next_page: 1, exited: false }
    } else {
        batch_step(batch_after(seen.drop_last()), seen.last()).0
    }
}

/// How many pages were handed over.
pub open spec fn pages_sent(seen: Seq<Seen>) -> nat
    decreases seen.len(),
{
    if seen.len() == 0 {
        0
    } else {
        pages_sent(seen.drop_last()) + if seen.last() == Seen::PageSent {
            1nat
        } else {
            0nat
        }
    }
}

/// Whatever is seen, and in whatever order: the page that is looked for is the one behind
/// those handed over, a page is handed over under the number of those before it, so the
/// indices run 0, 1, 2 without a gap; and the batch ends of itself only when the process has
/// ended and no page is left.
pub proof fn law_pages_come_in_order(seen: Seq<Seen>, now: Seen)
    requires
        pages_sent(seen) < u32::MAX - 1,
    ensures
        batch_after(seen).next_page == pages_sent(seen) + 1,
        batch_after(seen).exited == seen.contains(Seen::ChildExited),
        batch_step(batch_after(seen), now).1 matches Step::SendPage(i) ==> i == pages_sent(seen),
        batch_step(batch_after(seen), now).1 matches Step::ReadPage(n) ==> n == pages_sent(
            seen.push(now),
        ) + 1,
        batch_step(batch_after(seen), now).1 == Step::Finish ==> now == Seen::PageMissing
            && seen.contains(Seen::ChildExited),
    decreases seen.len(),
{
    assert(seen.push(now).drop_last() =~= seen);
    if seen.len() > 0 {
        let front = seen.drop_last();
        law_pages_come_in_order(front, seen.last());
        assert(front.push(seen.last()) =~= seen);
        if seen.contains(Seen::ChildExited) {
            let j = seen.index_of(Seen::ChildExited);
            if j < seen.len() - 1 {
                assert(front[j] == Seen::ChildExited);
            }
        }
        if front.contains(Seen::ChildExited) {
            let j = front.index_of(Seen::ChildExited);
            assert(seen[j] == Seen::ChildExited);
        }
        if seen.last() == Seen::ChildExited {
            assert(seen[seen.len() - 1] == Seen::ChildExited);
        }
    }
}

/// The arguments of a batch run: the device, the format and where the pages go, in that order,
/// and then every further argument, in its order.
pub proof fn law_every_argument_is_passed_on(
    device_name: Seq<char>,
    pattern: Seq<char>,
    extra: Seq<Seq<char>>,
)
    ensures
        ({
            let all = batch_args(device_name, pattern, extra);
            &&& all.len() == 3 + extra.len()
            &&& all[0] == "--device-name="@ + device_name
            &&& all[1] == "--format=pnm"@
            &&& all[2] == "--batch="@ + pattern
            &&& forall|i: int| 0 <= i < extra.len() ==> all[3 + i] == #[trigger] extra[i]
        }),
{
}

/// The number in a page's file name has at least three digits and is the page's number, so
/// that two pages never share a file.
pub proof fn law_a_page_has_a_file_of_its_own(n: nat, m: nat)
    ensures
        padded(n).len() >= 3,
        n < 1000 ==> padded(n).len() == 3,
        text::all_digits(padded(n)),
        text::digits_value(padded(n)) == n,
        padded(n) == padded(m) ==> n == m,
{
    lemma_padded(n);
    lemma_padded(m);
}

proof fn lemma_padded(n: nat)
    ensures
        padded(n).len() >= 3,
        n < 1000 ==> padded(n).len() == 3,
        text::all_digits(padded(n)),
        text::digits_value(padded(n)) == n,
{
    reveal_strlit("00");
    reveal_strlit("0");
    text::lemma_decimal_reads_back(n);
    reveal_with_fuel(decimal, 4);
    reveal_with_fuel(text::digits_value, 5);
    let d = decimal(n);
    if n < 10 {
        assert(d.len() == 1);
        assert(padded(n) =~= seq!['0', '0', d[0]]);
        assert(padded(n).drop_last() =~= seq!['0', '0']);
        assert(padded(n).drop_last().drop_last() =~= seq!['0']);
        assert(padded(n).drop_last().drop_last().drop_last() =~= seq![]);
        assert(d.drop_last() =~= seq![]);
        assert(text::is_digit(d[0]));
    } else if n < 100 {
        assert(d.len() == 2);
        assert(padded(n) =~= seq!['0', d[0], d[1]]);
        assert(padded(n).drop_last() =~= seq!['0', d[0]]);
        assert(padded(n).drop_last().drop_last() =~= seq!['0']);
        assert(padded(n).drop_last().drop_last().drop_last() =~= seq![]);
        assert(d.drop_last() =~= seq![d[0]]);
        assert(d.drop_last().drop_last() =~= seq![]);
        assert(text::is_digit(d[0]) && text::is_digit(d[1]));
    } else {
        lemma_three_digits(n);
    }
}

proof fn lemma_three_digits(n: nat)
    requires
        n >= 100,
    ensures
        decimal(n).len() >= 3,
        n < 1000 ==> decimal(n).len() == 3,
    decreases n,
{
    reveal_with_fuel(decimal, 4);
    if n >= 1000 {
        lemma_three_digits(n / 10);
    }
}

/// What ends a batch, and what does not. It is abandoned exactly where nobody takes pages any
/// more. It comes to its end exactly where a page is missing behind a process that has ended.
/// While the process runs, a missing page is waited for. A page that is there is handed over,
/// in front of anything else, and when the process ends the pages that it left are still
/// looked for.
pub proof fn law_a_batch_ends_behind_its_last_page(batch: Batch, seen: Seen)
    requires
        1 <= batch.next_page < u32::MAX,
    ensures
        ({
            let (after, step) = batch_step(batch, seen);
            &&& step == Step::Abandon <==> seen == Seen::ReceiverClosed
            &&& step == Step::Finish <==> seen == Seen::PageMissing && batch.exited
            &&& step == Step::PollChild <==> seen == Seen::PageMissing && !batch.exited
            &&& step == Step::Pause <==> seen == Seen::ChildRunning
            &&& step == Step::FailPoll <==> seen == Seen::ChildLost
            &&& step == Step::FailSend <==> seen == Seen::PageRefused
            &&& step is SendPage <==> seen == Seen::PageComplete
            &&& seen == Seen::PageComplete ==> step == Step::SendPage((batch.next_page - 1) as u32)
            &&& seen == Seen::PageSent ==> step == Step::ReadPage((batch.next_page + 1) as u32)
            &&& seen == Seen::ReceiverOpen || seen == Seen::ChildExited ==> step
                == Step::ReadPage(batch.next_page)
            &&& after.exited <==> batch.exited || seen == Seen::ChildExited
            &&& after.next_page == batch.next_page + if seen == Seen::PageSent {
                1int
            } else {
                0int
            }
        }),
{
}

/// A run that failed is reported with what it printed, and one that printed nothing without.
pub proof fn law_a_failed_run_says_what_it_printed(
    program: Seq<char>,
    code: Option<i32>,
    stderr: Seq<char>,
)
    ensures
        ({
            let said = failure_text(program, code, stderr);
            let short = program + " exited with "@ + exit_text(code);
            &&& stderr.len() == 0 ==> said == short
            &&& stderr.len() > 0 ==> said == short + ": "@ + stderr
        }),
{
}

/// What went wrong with a run is told for what it was: only a program that could not be started
/// makes the scanner unreachable, and what is said ends with the reason, where there is one.
pub proof fn law_a_fault_is_told_with_its_reason(
    config: ScanimageConfig,
    fault: RunFault,
    reason: String,
)
    ensures
        fault_view(config, fault) is NotReachable <==> fault is Start,
        fault_view(config, fault) is NotReachable || fault_view(config, fault) is Other,
        fault == RunFault::Start(reason) ==> (fault_view(
            config,
            fault,
        ) matches BackendErrorView::NotReachable { scanner, detail } && scanner
            == config.scanner@ && text::ends(detail, reason@) && text::holds(
            detail,
            config.program@,
        )),
        fault == RunFault::Spool(reason) || fault == RunFault::Poll(reason) || fault
            == RunFault::Invalid(reason) ==> (fault_view(
            config,
            fault,
        ) matches BackendErrorView::Other(said) && text::ends(said, reason@)),
        fault matches RunFault::Read { path, error } ==> (fault_view(
            config,
            fault,
        ) matches BackendErrorView::Other(said) && text::ends(said, error@) && text::holds(
            said,
            path@,
        )),
        fault is NoStderr ==> (fault_view(config, fault) matches BackendErrorView::Other(said)
            && text::begins(said, config.program@)),
{
    match fault {
        RunFault::Spool(error) => {
            text::law_a_part_stands_where_it_is("cannot create scan spool: "@, error@, seq![], seq![]);
        },
        RunFault::Start(error) => {
            let front = "failed to start "@ + config.program@ + ": "@;
            text::law_a_part_stands_where_it_is(front, error@, seq![], seq![]);
            text::law_a_part_stands_where_it_is(
                "failed to start "@,
                config.program@,
                ": "@ + error@,
                seq![],
            );
            assert("failed to start "@ + config.program@ + (": "@ + error@) =~= front + error@);
        },
        RunFault::NoStderr => {
            text::law_a_part_stands_where_it_is(
                config.program@,
                " did not provide stderr"@,
                seq![],
                seq![],
            );
        },
        RunFault::Poll(error) => {
            text::law_a_part_stands_where_it_is(
                "failed to poll "@ + config.program@ + ": "@,
                error@,
                seq![],
                seq![],
            );
        },
        RunFault::Read { path, error } => {
            let front = "cannot read scanned page "@ + path@ + ": "@;
            text::law_a_part_stands_where_it_is(front, error@, seq![], seq![]);
            text::law_a_part_stands_where_it_is(
                "cannot read scanned page "@,
                path@,
                ": "@ + error@,
                seq![],
            );
            assert("cannot read scanned page "@ + path@ + (": "@ + error@) =~= front + error@);
        },
        RunFault::Invalid(sentence) => {
            text::law_a_part_stands_where_it_is(seq![], sentence@, seq![], seq![]);
            assert(Seq::<char>::empty() + sentence@ =~= sentence@);
        },
        RunFault::ReceiverDropped => {},
    }
}

} // verus!
