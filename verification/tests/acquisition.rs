use scanbus_backends::brother::acquisition::{
    nearest_resolution, requested_mode, requested_resolution, requested_source, scanimage_args,
    sources_from_description, ButtonMapping, EsclDevice, DEFAULT_RESOLUTION_DPI,
};
use scanbus_backends::model::{ColorMode, ProfileKind, Source, Value};

fn mfc_j5335dw() -> EsclDevice {
    EsclDevice {
        device_uri: "airscan:e0:Brother MFC-J5335DW".to_owned(),
        resolutions: vec![100, 200, 300, 600],
        color_modes: vec![ColorMode::Color, ColorMode::Gray],
        sources: vec![Source::Flatbed, Source::Adf],
    }
}

fn mapping(profile: ProfileKind, options: &[(&str, Value)]) -> ButtonMapping {
    ButtonMapping {
        profile,
        options: options
            .iter()
            .map(|(key, value)| ((*key).to_owned(), value.clone()))
            .collect(),
    }
}

#[test]
fn a_document_takes_the_feeder_and_an_image_takes_the_glass() {
    let document = scanimage_args(Some(&mapping(ProfileKind::Document, &[])), &mfc_j5335dw());
    assert_eq!(
        document.args,
        vec!["--source=ADF".to_owned(), "--resolution=300".to_owned()]
    );

    let image = scanimage_args(Some(&mapping(ProfileKind::Image, &[])), &mfc_j5335dw());
    assert_eq!(
        image.args,
        vec![
            "--source=Flatbed".to_owned(),
            "--resolution=300".to_owned(),
            "--batch-count=1".to_owned(),
        ]
    );
}

#[test]
fn a_document_on_a_device_with_no_feeder_falls_back_to_the_glass() {
    let flatbed_only = EsclDevice {
        sources: vec![Source::Flatbed],
        ..mfc_j5335dw()
    };

    let acquisition = scanimage_args(
        Some(&mapping(ProfileKind::Document, &[])),
        &flatbed_only,
    );

    assert!(acquisition.args.contains(&"--source=Flatbed".to_owned()));
    assert!(acquisition.args.contains(&"--batch-count=1".to_owned()));
}

#[test]
fn the_options_override_every_fallback() {
    let acquisition = scanimage_args(
        Some(&mapping(
            ProfileKind::Document,
            &[
                ("source", Value::Str("flatbed".to_owned())),
                ("mode", Value::Str("Gray".to_owned())),
                ("resolution", Value::U64(600)),
            ],
        )),
        &mfc_j5335dw(),
    );

    assert_eq!(acquisition.resolution_dpi, 600);
    assert_eq!(
        acquisition.args,
        vec![
            "--source=Flatbed".to_owned(),
            "--resolution=600".to_owned(),
            "--mode=Gray".to_owned(),
            "--batch-count=1".to_owned(),
        ]
    );
}

#[test]
fn an_unadvertised_choice_is_snapped_rather_than_sent() {
    let acquisition = scanimage_args(
        Some(&mapping(
            ProfileKind::Image,
            &[
                ("resolution", Value::U64(450)),
                ("mode", Value::Str("bw".to_owned())),
            ],
        )),
        &mfc_j5335dw(),
    );

    assert_eq!(acquisition.resolution_dpi, 600);
    assert!(acquisition.args.contains(&"--mode=Color".to_owned()));
}

#[test]
fn a_silent_sighting_leaves_the_choice_to_scanimage() {
    let silent = EsclDevice {
        resolutions: Vec::new(),
        color_modes: Vec::new(),
        sources: Vec::new(),
        ..mfc_j5335dw()
    };

    let acquisition = scanimage_args(Some(&mapping(ProfileKind::Document, &[])), &silent);

    assert!(acquisition.args.contains(&"--source=Flatbed".to_owned()));
    assert_eq!(acquisition.resolution_dpi, DEFAULT_RESOLUTION_DPI);
}

#[test]
fn an_unassigned_key_still_produces_a_command_line() {
    let acquisition = scanimage_args(None, &mfc_j5335dw());

    assert_eq!(acquisition.resolution_dpi, DEFAULT_RESOLUTION_DPI);
    assert!(acquisition.args.contains(&"--source=Flatbed".to_owned()));
}

#[test]
fn capability_tokens_are_read_off_the_escl_description_when_there_are_any() {
    assert_eq!(
        sources_from_description("Brother MFC-J5335DW adf,platen scanner"),
        Some(vec![Source::Flatbed, Source::Adf])
    );
    assert_eq!(
        sources_from_description("Brother DCP-J1050DW platen scanner"),
        Some(vec![Source::Flatbed])
    );
    assert_eq!(
        sources_from_description("eSCL Brother MFC-J5335DW ip=192.168.1.3"),
        None
    );
}

#[test]
fn the_nearest_resolution_is_the_higher_of_two_as_near() {
    assert_eq!(nearest_resolution(400, &[100, 200, 300, 600]), 300);
    assert_eq!(nearest_resolution(450, &[600, 300]), 600);
    assert_eq!(nearest_resolution(450, &[300, 600]), 600);
    assert_eq!(nearest_resolution(0, &[u32::MAX]), u32::MAX);
    assert_eq!(nearest_resolution(123, &[]), 123);
}

#[test]
fn a_bitonal_mode_that_is_offered_is_asked_for_by_its_sane_name() {
    let device = EsclDevice {
        color_modes: vec![ColorMode::Gray, ColorMode::Bw],
        ..mfc_j5335dw()
    };
    let acquisition = scanimage_args(
        Some(&mapping(ProfileKind::Image, &[("mode", Value::Str(" Lineart ".to_owned()))])),
        &device,
    );
    assert!(acquisition.args.contains(&"--mode=Lineart".to_owned()));
}

#[test]
fn options_are_read_in_every_spelling_and_kind() {
    let options = |key: &str, value: Value| vec![(key.to_owned(), value)];
    for (word, source) in [
        ("flatbed", Some(Source::Flatbed)),
        ("Platen", Some(Source::Flatbed)),
        ("glass", Some(Source::Flatbed)),
        (" ADF ", Some(Source::Adf)),
        ("feeder", Some(Source::Adf)),
        ("tray", None),
    ] {
        let all = options("source", Value::Str(word.to_owned()));
        assert_eq!(requested_source(Some(&all)), source, "{word}");
    }
    for (word, mode) in [
        ("colour", Some(ColorMode::Color)),
        ("RGB", Some(ColorMode::Color)),
        ("grey", Some(ColorMode::Gray)),
        ("grayscale", Some(ColorMode::Gray)),
        ("monochrome", Some(ColorMode::Bw)),
        ("sepia", None),
    ] {
        let all = options("mode", Value::Str(word.to_owned()));
        assert_eq!(requested_mode(Some(&all)), mode, "{word}");
    }
    for (value, dpi) in [
        (Value::U64(600), Some(600)),
        (Value::U64(u64::from(u32::MAX) + 1), None),
        (Value::I64(150), Some(150)),
        (Value::I64(-1), None),
        (Value::Str("200".to_owned()), Some(200)),
        (Value::Str(" 200".to_owned()), None),
        (Value::Bool(true), None),
    ] {
        let all = options("resolution", value.clone());
        assert_eq!(requested_resolution(Some(&all)), dpi, "{value:?}");
    }
    assert_eq!(requested_source(None), None);
    assert_eq!(requested_resolution(Some(&Vec::new())), None);
}

#[test]
fn nothing_outside_the_advertised_lists_is_asked_for() {
    let device = mfc_j5335dw();
    for resolution in [0u64, 99, 150, 250, 451, 10_000] {
        for mode in ["color", "gray", "bw"] {
            let acquisition = scanimage_args(
                Some(&mapping(
                    ProfileKind::Document,
                    &[
                        ("resolution", Value::U64(resolution)),
                        ("mode", Value::Str(mode.to_owned())),
                    ],
                )),
                &device,
            );
            assert!(device.resolutions.contains(&acquisition.resolution_dpi));
            assert!(
                acquisition.args.contains(&"--mode=Color".to_owned())
                    || acquisition.args.contains(&"--mode=Gray".to_owned())
            );
            assert!(!acquisition.args.contains(&"--batch-count=1".to_owned()));
        }
    }
}
