use scanbus_backends::hplip::mdns::{
    claims, hp_scan_model, instance_name, is_hp_vendor, model_candidates, model_key,
    names_hp_device, normalize_model_name, without_bracketed_tail,
};
use scanbus_backends::hplip::probe::{ModelInfo, Models};
use scanbus_backends::mdns::ServiceRecord;

fn models(entries: &[(&str, i32)]) -> Models {
    let mut models: Models = Models::new();
    for (key, scan_type) in entries {
        let info = ModelInfo { scan_type: *scan_type, scan_src: 3, ..ModelInfo::default() };
        models.insert((*key).to_owned(), info);
    }
    models
}

fn record(service_type: &str, instance: &str, txt: &[(&str, &str)]) -> ServiceRecord {
    ServiceRecord {
        fullname: format!("{instance}.{service_type}"),
        service_type: service_type.to_owned(),
        hostname: "printer.local.".to_owned(),
        port: 8080,
        addresses: vec!["192.168.1.3".to_owned()],
        txt: txt.iter().map(|(key, value)| ((*key).to_owned(), (*value).to_owned())).collect(),
        addr_auto: false,
    }
}

fn brother_uscan() -> ServiceRecord {
    record(
        "_uscan._tcp.local.",
        "Brother MFC-J5335DW",
        &[
            ("duplex", "F"),
            ("is", "adf,platen"),
            ("cs", "binary,grayscale,color"),
            ("pdl", "application/pdf,image/jpeg"),
            ("note", ""),
            ("ty", "Brother MFC-J5335DW"),
            ("rs", "eSCL"),
            (
                "adminurl",
                "http://brother-mfcCE27.local./net/net/airprint.html",
            ),
            ("vers", "2.62"),
            ("txtvers", "1"),
        ],
    )
}

fn brother_scanner() -> ServiceRecord {
    record(
        "_scanner._tcp.local.",
        "Brother MFC-J5335DW",
        &[
            ("flatbed", "T"),
            ("feeder", "T"),
            ("button", "T"),
            ("mdl", "MFC-J5335DW"),
            ("mfg", "Brother"),
            ("ty", "Brother MFC-J5335DW"),
            ("adminurl", "http://brother-mfcCE27.local./"),
            ("note", ""),
            ("txtvers", "1"),
        ],
    )
}

#[test]
fn an_hp_uscan_record_resolves_to_its_models_dat_model() {
    let service = record(
        "_uscan._tcp.local.",
        "HP OfficeJet Pro 8610 [1A2B3C]",
        &[
            ("txtvers", "1"),
            ("vers", "2.63"),
            ("rs", "eSCL"),
            ("ty", "HP OfficeJet Pro 8610 [1A2B3C]"),
            ("pdl", "application/pdf,image/jpeg"),
            ("is", "platen,adf"),
            ("duplex", "T"),
        ],
    );

    assert_eq!(
        hp_scan_model(&service, &models(&[("hp_officejet_pro_8610", 7)])).as_deref(),
        Some("HP_OfficeJet_Pro_8610"),
    );
}

#[test]
fn a_scanner_record_puts_the_manufacturer_back_in_front_of_mdl() {
    let service = record(
        "_scanner._tcp.local.",
        "Officejet Pro 8610 [1A2B3C]",
        &[
            ("mfg", "Hewlett-Packard"),
            ("mdl", "Officejet Pro 8610"),
            ("ty", "Officejet Pro 8610"),
            ("button", "T"),
        ],
    );

    assert_eq!(
        hp_scan_model(&service, &models(&[("hp_officejet_pro_8610", 7)])).as_deref(),
        Some("HP_Officejet_Pro_8610"),
    );
}

#[test]
fn the_brother_on_this_lan_is_not_claimed() {
    let models = models(&[("hp_officejet_pro_8610", 7)]);

    assert_eq!(hp_scan_model(&brother_uscan(), &models), None);
    assert_eq!(hp_scan_model(&brother_scanner(), &models), None);
}

#[test]
fn a_manufacturer_key_overrides_a_device_name_that_claims_hp() {
    let mut txt: Vec<(&str, &str)> = vec![("mfg", "Brother"), ("mdl", "MFC-J5335DW")];
    txt.push(("ty", "HP OfficeJet Pro 8610"));
    let service = record("_scanner._tcp.local.", "HP OfficeJet Pro 8610", &txt);

    assert_eq!(
        hp_scan_model(&service, &models(&[("hp_officejet_pro_8610", 7)])),
        None,
    );
}

#[test]
fn a_printer_only_hp_is_not_offered_as_a_scanner() {
    let service = record(
        "_uscan._tcp.local.",
        "HP OfficeJet Pro 251dw Printer",
        &[("ty", "HP OfficeJet Pro 251dw Printer")],
    );

    assert_eq!(
        hp_scan_model(&service, &models(&[("hp_officejet_pro_251dw_printer", 0)])),
        None,
    );
}

#[test]
fn a_model_absent_from_models_dat_is_not_claimed() {
    let service = record(
        "_uscan._tcp.local.",
        "HP Something Unreleased",
        &[("ty", "HP Something Unreleased")],
    );

    assert_eq!(
        hp_scan_model(&service, &models(&[("hp_officejet_pro_8610", 7)])),
        None,
    );
    assert_eq!(hp_scan_model(&service, &Models::new()), None);
}

#[test]
fn model_names_are_normalized_the_way_hplip_normalizes_them() {
    assert_eq!(
        normalize_model_name("HP OfficeJet Pro 8610"),
        "HP_OfficeJet_Pro_8610"
    );
    assert_eq!(
        normalize_model_name("HP  LaserJet   3055"),
        "HP_LaserJet__3055"
    );
    assert_eq!(normalize_model_name("HP~LaserJet/3055"), "HPLaserJet_3055");
    assert_eq!(
        normalize_model_name("_HP_LaserJet_3055_"),
        "HP_LaserJet_3055"
    );
    assert_eq!(
        normalize_model_name("HP LaserJet 3055 PCL5/ PS"),
        "HP_LaserJet_3055_PCL5__PS"
    );
    assert_eq!(model_key("HP OfficeJet Pro 8610"), "hp_officejet_pro_8610");
}

#[test]
fn a_bracketed_serial_suffix_is_tried_both_ways() {
    assert_eq!(
        without_bracketed_tail("HP OfficeJet Pro 8610 [1A2B3C]"),
        "HP OfficeJet Pro 8610"
    );
    assert_eq!(
        without_bracketed_tail("HP LaserJet 3055"),
        "HP LaserJet 3055"
    );

    let service = record(
        "_uscan._tcp.local.",
        "HP ScanJet [Pro]",
        &[("ty", "HP ScanJet [Pro]")],
    );
    assert_eq!(
        hp_scan_model(&service, &models(&[("hp_scanjet_[pro]", 7)])).as_deref(),
        Some("HP_ScanJet_[Pro]"),
    );
}

#[test]
fn the_instance_name_answers_when_there_is_no_ty() {
    let service = record("_uscan._tcp.local.", "HP_LaserJet_3055", &[("rs", "eSCL")]);

    assert_eq!(
        hp_scan_model(&service, &models(&[("hp_laserjet_3055", 4)])).as_deref(),
        Some("HP_LaserJet_3055"),
    );
}

#[test]
fn txt_keys_are_looked_up_whatever_their_case() {
    let service = record(
        "_scanner._tcp.local.",
        "x",
        &[("USB_mfg", "HP"), ("Mdl", "LaserJet 3055"), ("TY", "LaserJet")],
    );
    let said = claims(&service);
    assert_eq!(said.vendor.as_deref(), Some("HP"));
    assert_eq!(said.device_name.as_deref(), Some("LaserJet"));
    assert_eq!(said.models, ["LaserJet 3055"]);
    assert_eq!(
        model_candidates(&said),
        ["HP LaserJet", "HP LaserJet 3055", "HP x"]
    );
}

#[test]
fn a_name_leads_with_hp_or_does_not() {
    for name in ["HP", "hp LaserJet", "HP_LaserJet", " Hewlett-Packard X", "hewlett packard x"] {
        assert!(names_hp_device(name), "{name}");
    }
    for name in ["", "My HP", "HPE Server", "Hewlett"] {
        assert!(!names_hp_device(name), "{name}");
    }
    assert!(is_hp_vendor("Hewlett_Packard Co"));
    assert!(!is_hp_vendor("HP Inc"));
}

#[test]
fn an_instance_is_what_stands_before_the_service_type() {
    let service = record("_uscan._tcp.local.", "HP OfficeJet", &[]);
    assert_eq!(instance_name(&service), "HP OfficeJet");
    let mut odd = service.clone();
    odd.service_type = "_other.".to_owned();
    assert_eq!(instance_name(&odd), "HP OfficeJet._uscan._tcp.local.");
}
