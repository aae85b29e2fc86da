use scanbus_backends::model::{BackendError, PageFormat, ScannerId};
use scanbus_backends::scanimage::{
    complete_pnm_len, look_at_page, page_file_name, Batch, PageLook, RunFault, ScanimageConfig,
    Seen, Step, DEFAULT_SCANIMAGE_HELPER,
};

fn config() -> ScanimageConfig {
    let scanner = ScannerId::from_backend("hplip", "192.168.1.9").unwrap();
    ScanimageConfig::new(scanner, "hp:/net/test?ip=192.168.1.9".to_owned())
}

/// A run that writes pages and ends, taken page by page as a batch says.
fn take_pages(files: &mut Vec<Option<Vec<u8>>>, exits_after: usize) -> Vec<(u32, Vec<u8>)> {
    let mut batch = Batch::new();
    let mut taken = Vec::new();
    let mut polls = 0;
    let mut step = batch.step(Seen::ReceiverOpen);
    loop {
        let seen = match step {
            Step::ReadPage(number) => {
                assert!(page_file_name(number).starts_with("page-"));
                let file = files.get(number as usize - 1).cloned().flatten();
                match file {
                    Some(data) if look_at_page("page", &data) == PageLook::Complete => {
                        Seen::PageComplete
                    }
                    _ => Seen::PageMissing,
                }
            }
            Step::SendPage(index) => {
                taken.push((index, files[index as usize].take().unwrap()));
                Seen::PageSent
            }
            Step::PollChild => {
                polls += 1;
                if polls > exits_after {
                    Seen::ChildExited
                } else {
                    Seen::ChildRunning
                }
            }
            Step::Pause => Seen::ReceiverOpen,
            Step::Finish => return taken,
            other => panic!("{other:?}"),
        };
        step = batch.step(seen);
    }
}

#[test]
fn fetch_pages_streams_batch_files_in_order() {
    let mut files =
        vec![Some(b"P5\n1 1\n255\n\x01".to_vec()), Some(b"P5\n1 1\n255\n\x02".to_vec())];
    let pages = take_pages(&mut files, 1);
    assert_eq!(pages.len(), 2);
    assert_eq!(pages[0].0, 0);
    assert_eq!(pages[1].0, 1);
    assert_eq!(pages[0].1.last().copied(), Some(1));
    assert_eq!(pages[1].1.last().copied(), Some(2));

    let page = config().page(pages[1].0, pages[1].1.clone());
    assert_eq!(page.index, 1);
    assert_eq!(page.format, PageFormat::Pnm);
    assert_eq!(page.resolution_dpi, 300);
}

#[test]
fn a_page_that_is_not_all_there_is_waited_for_until_the_end() {
    let mut files = vec![Some(b"P5\n2 1\n255\n\x01".to_vec()), Some(b"P5\n1 1\n255\n\x02".to_vec())];
    assert_eq!(take_pages(&mut files, 3), Vec::new());
}

#[test]
fn fetch_pages_reports_subprocess_failure_as_stream_error() {
    let config = config();
    let error = config.outcome(Some((false, Some(7))), b"ADF jam\n").unwrap();
    assert!(matches!(error, BackendError::Other(_)));
    assert!(error.to_text().contains("ADF jam"), "{error:?}");
    assert_eq!(
        error.to_text(),
        format!("{DEFAULT_SCANIMAGE_HELPER} exited with exit code 7: ADF jam")
    );
    assert_eq!(
        config.outcome(Some((false, None)), b" \n"),
        Some(BackendError::Other(format!("{DEFAULT_SCANIMAGE_HELPER} exited with signal")))
    );
    assert_eq!(config.outcome(Some((true, Some(0))), b"warning"), None);
    assert_eq!(config.outcome(None, b"warning"), None);
}

#[test]
fn every_fault_of_a_run_is_reported() {
    let config = config();
    for (fault, text) in [
        (RunFault::Spool("full".to_owned()), "cannot create scan spool: full"),
        (RunFault::NoStderr, "/usr/libexec/scanbus/scanbus-scanimage did not provide stderr"),
        (
            RunFault::Poll("gone".to_owned()),
            "failed to poll /usr/libexec/scanbus/scanbus-scanimage: gone",
        ),
        (
            RunFault::Read { path: "/x".to_owned(), error: "denied".to_owned() },
            "cannot read scanned page /x: denied",
        ),
        (RunFault::Invalid("no page".to_owned()), "no page"),
        (RunFault::ReceiverDropped, "scan page receiver dropped"),
    ] {
        assert_eq!(config.fault(fault), BackendError::Other(text.to_owned()));
    }
    assert_eq!(
        config.fault(RunFault::Start("denied".to_owned())),
        BackendError::NotReachable {
            scanner: config.scanner.clone(),
            detail: "failed to start /usr/libexec/scanbus/scanbus-scanimage: denied".to_owned(),
        }
    );
}

#[test]
fn complete_pnm_waits_for_the_full_raster() {
    let partial = b"P5\n1 1\n255\n";
    let full = b"P5\n1 1\n255\n\x7f";

    assert_eq!(complete_pnm_len(partial).unwrap(), None);
    assert_eq!(complete_pnm_len(full).unwrap(), Some(full.len()));
}

#[test]
fn every_kind_of_page_has_its_own_length() {
    assert_eq!(complete_pnm_len(b"P4\n9 2\nabcd").unwrap(), Some(11));
    assert_eq!(complete_pnm_len(b"P4\n9 2\nabc").unwrap(), None);
    assert_eq!(complete_pnm_len(b"P6\n1 1\n255\nabc and more").unwrap(), Some(14));
    assert_eq!(complete_pnm_len(b"P5\n# a comment\n1 1\n65535\nab").unwrap(), Some(27));
    assert_eq!(complete_pnm_len(b"P5").unwrap(), None);
    assert_eq!(complete_pnm_len(b"Q5\n1 1\n255\n"), Err("missing PNM magic".to_owned()));
    assert_eq!(complete_pnm_len(b"P7\n1 1\n255\n"), Err("unsupported PNM kind P7".to_owned()));
    assert!(complete_pnm_len(b"P5\nx 1\n255\n").is_err());
    assert!(matches!(
        look_at_page("/spool/page-001.pnm", b"P7\n1 1\n255\n"),
        PageLook::Invalid(sentence)
            if sentence == "scanimage wrote an invalid PNM page /spool/page-001.pnm: \
                            unsupported PNM kind P7"
    ));
}

#[test]
fn no_prefix_of_a_page_is_taken_for_it() {
    let page = b"P6\n# c\n2 2\n255\n0123456789ab";
    for len in 0..page.len() {
        assert_eq!(complete_pnm_len(&page[..len]), Ok(None), "{len}");
    }
    assert_eq!(complete_pnm_len(page), Ok(Some(page.len())));
}

#[test]
fn page_files_are_numbered_over_three_digits() {
    assert_eq!(page_file_name(1), "page-001.pnm");
    assert_eq!(page_file_name(42), "page-042.pnm");
    assert_eq!(page_file_name(1000), "page-1000.pnm");
}

#[test]
fn a_batch_that_nobody_reads_is_abandoned() {
    let mut batch = Batch::new();
    assert_eq!(batch.step(Seen::ReceiverClosed), Step::Abandon);
    assert_eq!(batch.step(Seen::PageRefused), Step::FailSend);
    assert_eq!(batch.step(Seen::ChildLost), Step::FailPoll);
}

#[test]
fn headers_that_are_no_header_are_refused_in_words() {
    for (bytes, sentence) in [
        (&b"X5\n"[..], "missing PNM magic"),
        (&b"P7\n1 1\n"[..], "unsupported PNM kind P7"),
        (&b"P5\nx 1\n255\n"[..], "invalid width \"x\""),
        (&b"P5\n1 -1\n255\n"[..], "invalid height \"-1\""),
        (&b"P5\n1 1\n\"\n"[..], "invalid maxval \"\\\"\""),
        (
            &b"P5\n\xff 1\n255\n"[..],
            "header is not valid UTF-8: invalid utf-8 sequence of 1 bytes from index 0",
        ),
        (
            &b"P5\n18446744073709551615 2\n255\n\0"[..],
            "raster size overflow",
        ),
        (
            &b"P5\n18446744073709551615 1\n255\n\0"[..],
            "page size overflow",
        ),
    ] {
        assert_eq!(complete_pnm_len(bytes).unwrap_err(), sentence, "{bytes:?}");
    }
}

#[test]
fn only_a_lone_plus_sign_is_refused_before_a_page_is_complete() {
    let page = b"P5\n+2 1\n255\n\x01\x02";
    for len in 0..page.len() {
        let seen = complete_pnm_len(&page[..len]);
        if len == 4 {
            assert_eq!(seen, Err("invalid width \"+\"".to_owned()));
        } else {
            assert_eq!(seen, Ok(None), "{len}");
        }
    }
    let mut more = page.to_vec();
    more.extend_from_slice(b"P5\n");
    assert_eq!(complete_pnm_len(page), Ok(Some(page.len())));
    assert_eq!(complete_pnm_len(&more), Ok(Some(page.len())));
}
