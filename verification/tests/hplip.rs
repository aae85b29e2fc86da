use scanbus_backends::hplip::backend::{
    capabilities_from_model, dependency_states, fallback_paths, model_key_from_uri,
    model_requires_plugin, physical_address_from_uri, requires_plugin, scanner_from_probe,
    scanners_in_output, sources_from_scan_src, HplipBackend, PackageQuery, HPAIO_PACKAGE,
    HPLIP_PACKAGE, ID,
};
use scanbus_backends::hplip::probe::{
    load_models, parse_probe_output, strip_ansi, ModelInfo, Models, ProbeRecord,
};
use scanbus_backends::model::{
    get, BackendError, CommandRun, PairingProgress, ScannerId, ScannerInfo, Source, Status, Value,
};

#[test]
fn hp_probe_network_table_is_parsed() {
    let output = r#"
HP Linux Imaging and Printing System

Device URI                                 Model                   Name
-----------------------------------------  ----------------------  ----------------------
hp:/net/officejet_pro_9010?ip=192.168.1.9  HP OfficeJet Pro 9010  OfficeJet Pro 9010

Found 1 printer(s) on the 'net' bus.
"#;

    assert_eq!(
        parse_probe_output(output),
        vec![ProbeRecord {
            device_uri: "hp:/net/officejet_pro_9010?ip=192.168.1.9".to_owned(),
            model_name: "HP OfficeJet Pro 9010".to_owned(),
            display_name: "OfficeJet Pro 9010".to_owned(),
        }]
    );
}

#[test]
fn hp_probe_usb_table_is_parsed() {
    let output = r#"
Device URI                                              Model
------------------------------------------------------  -----------------------
hp:/usb/officejet_8710_series?serial=CN1234ABCDE        HP OfficeJet 8710 series
"#;

    assert_eq!(
        parse_probe_output(output),
        vec![ProbeRecord {
            device_uri: "hp:/usb/officejet_8710_series?serial=CN1234ABCDE".to_owned(),
            model_name: "HP OfficeJet 8710 series".to_owned(),
            display_name: "HP OfficeJet 8710 series".to_owned(),
        }]
    );
}

#[test]
fn physical_address_prefers_network_identity() {
    assert_eq!(
        physical_address_from_uri("hp:/net/officejet_pro_9010?ip=192.168.1.9"),
        Some("192.168.1.9".to_owned())
    );
    assert_eq!(
        physical_address_from_uri("hp:/net/officejet_pro_9010?hostname=HP123.local."),
        Some("hp123.local".to_owned())
    );
}

#[test]
fn capabilities_follow_scan_src_and_plugin_flags() {
    let record = ProbeRecord {
        device_uri: "hp:/net/officejet_pro_9010?ip=192.168.1.9".to_owned(),
        model_name: "HP OfficeJet Pro 9010".to_owned(),
        display_name: "OfficeJet Pro 9010".to_owned(),
    };
    let capabilities = capabilities_from_model(
        &record,
        &Some("officejet_pro_9010".to_owned()),
        &ModelInfo {
            scan_type: 6,
            scan_src: 0x1 | 0x2,
            plugin: 1,
            plugin_reason: 0x40,
        },
    );

    assert_eq!(capabilities.sources, vec![Source::Flatbed, Source::Adf]);
    assert!(capabilities.duplex);
    assert_eq!(capabilities.buttons.count, 0);
    assert!(requires_plugin(&ScannerInfo {
        id: ScannerId::from_backend(ID, "192.168.1.9").unwrap(),
        name: record.display_name,
        backend: ID.to_owned(),
        address: "192.168.1.9".to_owned(),
        capabilities,
        status: Status::Online,
    }));
}

#[test]
fn models_dat_fields_are_loaded() {
    let models = load_models(
        r#"
[officejet_pro_9010]
scan-type=6
scan-src=3
plugin=1
plugin-reason=64
"#,
    );
    assert_eq!(
        models.get("officejet_pro_9010"),
        Some(&ModelInfo { scan_type: 6, scan_src: 3, plugin: 1, plugin_reason: 64 })
    );
}

const TABLE: &str = "\
Device URI                                 Model                   Name
-----------------------------------------  ----------------------  ----------------------
hp:/net/officejet_pro_9010?ip=192.168.1.9  HP OfficeJet Pro 9010  OfficeJet Pro 9010
";

const MODELS: &str = "[officejet_pro_9010]\nscan-type=6\nscan-src=3\nplugin=0\nplugin-reason=64\n";

fn exited(success: bool, code: Option<i32>, stdout: &str, stderr: &str) -> CommandRun {
    CommandRun::Exited {
        success,
        code,
        stdout: stdout.as_bytes().to_vec(),
        stderr: stderr.as_bytes().to_vec(),
    }
}

fn discovered() -> ScannerInfo {
    HplipBackend::default()
        .discover_once(Some(exited(true, Some(0), TABLE, "")), Some(MODELS.to_owned()))
        .unwrap()
        .remove(0)
}

#[test]
fn escape_codes_are_taken_out() {
    assert_eq!(strip_ansi("\u{1b}[1;32mok\u{1b}[0m"), "ok");
    assert_eq!(strip_ansi("\u{1b}x"), "x");
    assert_eq!(strip_ansi("a\u{1b}[12"), "a");
    assert_eq!(strip_ansi("\u{1b}"), "");
    assert_eq!(strip_ansi("é"), "\u{c3}\u{a9}");
}

#[test]
fn rows_outside_a_table_and_short_rows_are_passed_over() {
    let output = "hp:/net/x?ip=1  HP X\n\
                  Device URI  Model  Name\n\
                  hp:/net/a?ip=1  HP A\n\
                  other:/b  HP B  B\n\
                  hp:/net/c?ip=3  HP C  C  more\n\
                  \n\
                  hp:/net/d?ip=4  HP D  D\n";
    let records = parse_probe_output(output);
    assert_eq!(records.len(), 1);
    assert_eq!(records[0].device_uri, "hp:/net/c?ip=3");
    assert_eq!(records[0].display_name, "C");
}

#[test]
fn device_uris_are_read() {
    assert_eq!(model_key_from_uri("hp:/net/OfficeJet_250?ip=1"), Some("officejet_250".to_owned()));
    assert_eq!(model_key_from_uri("hp:/net"), None);
    assert_eq!(model_key_from_uri("hp:/net/?ip=1"), None);
    assert_eq!(model_key_from_uri("usb:/net/x"), None);
    assert_eq!(physical_address_from_uri("hp:/usb/x?bus=usb&serial=CN1"), Some("CN1".to_owned()));
    assert_eq!(
        physical_address_from_uri("hp:/usb/x?bus=usb&device=/dev/usb/lp0"),
        Some("/dev/usb/lp0".to_owned())
    );
    assert_eq!(physical_address_from_uri("hp:/usb/x?serial=CN1"), None);
    assert_eq!(physical_address_from_uri("hp:/net/x?zc=HP.Local."), Some("hp.local".to_owned()));
    assert_eq!(physical_address_from_uri("hp:/net/x?ip=1.2.3.4&flag"), None);
    assert_eq!(physical_address_from_uri("hp:/net/x?ip=a&ip=B"), Some("b".to_owned()));
    assert_eq!(physical_address_from_uri("hp:/net/x"), None);
}

#[test]
fn model_lists_are_read_to_the_end() {
    let models = load_models(
        "scan-type=9\n# [hidden]\n [ One ] \nscan-type = 4\nscan-src=x\nplugin=-1\n\
         [two]\nplugin-reason=4294967296\nno value\n[one]\nscan-src=1\n",
    );
    assert_eq!(
        models.get("one"),
        Some(&ModelInfo { scan_type: 4, scan_src: 1, plugin: -1, plugin_reason: 0 })
    );
    assert_eq!(models.get("two"), Some(&ModelInfo::default()));
    assert_eq!(models.get("hidden"), None);
}

#[test]
fn discovery_describes_what_the_model_list_says() {
    let scanner = discovered();
    assert_eq!(scanner.id.as_str(), "hplip_192_2E168_2E1_2E9");
    assert_eq!(scanner.name, "OfficeJet Pro 9010");
    assert_eq!(scanner.backend, ID);
    assert_eq!(scanner.address, "192.168.1.9");
    assert_eq!(scanner.status, Status::Online);
    assert!(scanner.capabilities.duplex);
    let Some(Value::Dict(dict)) = get(&scanner.capabilities.extra, "hplip") else {
        panic!("every HP scanner carries its dictionary");
    };
    let keys: Vec<&str> = dict.iter().map(|(key, _)| key.as_str()).collect();
    assert_eq!(
        keys,
        [
            "device_uri",
            "model_key",
            "model_name",
            "plugin_reason",
            "plugin_required",
            "scan_src",
            "scan_type"
        ]
    );
    assert_eq!(get(dict, "plugin_required"), Some(&Value::Bool(true)));
    assert!(requires_plugin(&scanner));
}

#[test]
fn discovery_goes_on_without_a_model_list() {
    let scanner = HplipBackend::default()
        .discover_once(Some(exited(true, Some(0), TABLE, "")), None)
        .unwrap()
        .remove(0);
    assert!(scanner.capabilities.sources.is_empty());
    assert!(!requires_plugin(&scanner));
}

#[test]
fn discovery_ends_as_the_probe_does() {
    let backend = HplipBackend::default();
    assert_eq!(backend.id(), "hplip");
    assert_eq!(backend.discover_once(None, None).unwrap(), Vec::new());
    let scanner = HplipBackend::discovery_scanner();
    assert_eq!(
        backend.discover_once(Some(CommandRun::NotRun("denied".to_owned())), None),
        Err(BackendError::NotReachable {
            scanner: scanner.clone(),
            detail: "failed to run hp-probe: denied".to_owned()
        })
    );
    assert_eq!(
        backend.discover_once(Some(exited(false, None, "", "")), None),
        Err(BackendError::NotReachable {
            scanner,
            detail: "hp-probe failed with signal: no output".to_owned()
        })
    );
    assert_eq!(backend.probe_arguments()[1], "--filter=scan");
    assert_eq!(backend.query_arguments("hplip"), ["-W", "-f=${db:Status-Status}\\n", "hplip"]);
}

#[test]
fn a_device_without_an_address_is_an_error() {
    let record = ProbeRecord {
        device_uri: "hp:/net/x?ip=".to_owned(),
        model_name: "X".to_owned(),
        display_name: "X".to_owned(),
    };
    assert!(matches!(scanner_from_probe(record, &Models::new()), Err(BackendError::Other(_))));
    let output = "Device URI  Model\nhp:/net/x?ip=  HP X\n";
    assert!(scanners_in_output(output, &Models::new()).is_err());
}

#[test]
fn paper_paths_and_plugin_needs_are_bits() {
    assert_eq!(sources_from_scan_src(0), Vec::new());
    assert_eq!(sources_from_scan_src(2), vec![Source::Adf]);
    assert_eq!(sources_from_scan_src(5), vec![Source::Flatbed]);
    let model = |plugin: i32, plugin_reason: u32| ModelInfo {
        plugin,
        plugin_reason,
        ..ModelInfo::default()
    };
    assert!(model_requires_plugin(&model(2, 0)));
    assert!(!model_requires_plugin(&model(-1, 0x3f)));
    for bit in [0x40, 0x80, 0x100] {
        assert!(model_requires_plugin(&model(0, bit)));
    }
    assert!(!model_requires_plugin(&model(0, 0x200)));
}

#[test]
fn what_is_missing_is_named_in_order() {
    let backend = HplipBackend::default();
    let mut scanner = discovered();
    let there = || PackageQuery::Asked(exited(true, Some(0), "installed\n", ""));
    let gone = || PackageQuery::Asked(exited(false, Some(1), "", "unknown"));
    let failed = |hplip: &PackageQuery, hpaio: &PackageQuery, scanner: &ScannerInfo| {
        match backend.ensure_installed(scanner, hplip, hpaio) {
            (PairingProgress::Failed { message }, Err(error)) => {
                assert_eq!(message, error.to_text());
                error
            }
            other => panic!("{other:?}"),
        }
    };

    for (hplip, hpaio, package) in [
        (gone(), there(), "hplip"),
        (PackageQuery::NoTool { file_present: false }, gone(), "hplip"),
        (PackageQuery::NoTool { file_present: true }, gone(), "libsane-hpaio"),
        (there(), there(), "hp-plugin"),
    ] {
        let BackendError::InstallFailed { package: named, .. } = failed(&hplip, &hpaio, &scanner)
        else {
            panic!("something is missing");
        };
        assert_eq!(named, package);
    }
    let not_run = PackageQuery::Asked(CommandRun::NotRun("denied".to_owned()));
    assert_eq!(
        failed(&there(), &not_run, &scanner),
        BackendError::Other("failed to run dpkg-query for libsane-hpaio: denied".to_owned())
    );

    scanner.capabilities.extra.clear();
    let (progress, outcome) = backend.ensure_installed(&scanner, &there(), &there());
    assert_eq!(progress, PairingProgress::Ready);
    assert_eq!(outcome, Ok(()));
    assert_eq!(
        backend.checking(&scanner),
        PairingProgress::Checking {
            message: "checking HPLIP dependencies for OfficeJet Pro 9010".to_owned()
        }
    );
    let states = dependency_states(&there(), &gone()).unwrap();
    assert_eq!((states[0].package, states[0].installed), ("hplip", true));
    assert_eq!((states[1].package, states[1].installed), ("libsane-hpaio", false));
    assert_eq!(fallback_paths(HPLIP_PACKAGE), ["/usr/bin/hp-probe"]);
    assert_eq!(fallback_paths(HPAIO_PACKAGE).len(), 3);
}

#[test]
fn what_the_backend_does_not_do_is_refused() {
    let backend = HplipBackend::default();
    assert_eq!(
        backend.set_button_mapping(),
        Err(BackendError::Unsupported { backend: "hplip", operation: "set_button_mapping" })
    );
    let scanner = discovered().id;
    assert_eq!(
        backend.fetch_pages(&scanner, "press-1"),
        Err(BackendError::UnknownJob { scanner: scanner.clone(), job: "press-1".to_owned() })
    );
}
