use scanbus_backends::brother::discovery::panel_buttons;
use scanbus_backends::skey::function::Function;

/// Index, label and whether the label can be changed, for each key that is published.
const PUBLISHED: [(u32, &str, bool); 4] = [
    (0, "Scan to File", false),
    (1, "Scan to Image", false),
    (2, "Scan to OCR", false),
    (3, "Scan to E-mail", false),
];

/// Index, `FUNC`, `APPNUM` and label of each panel entry.
const WIRE: [(u32, &str, u8, &str); 4] = [
    (0, "FILE", 5, "Scan to File"),
    (1, "IMAGE", 1, "Scan to Image"),
    (2, "OCR", 3, "Scan to OCR"),
    (3, "EMAIL", 2, "Scan to E-mail"),
];

#[test]
fn the_api_worked_example_is_what_the_backend_publishes() {
    let buttons = panel_buttons();
    assert_eq!(PUBLISHED.len(), Function::ALL.len());
    assert_eq!(buttons.count as usize, PUBLISHED.len());
    for (index, label, configurable) in PUBLISHED {
        let function = Function::from_button_index(index).unwrap();
        assert_eq!(function.device_label(), label, "key {index}");
        assert_eq!(buttons.labels[index as usize], label, "key {index}");
        assert_eq!(buttons.label_configurable, configurable, "key {index}");
    }
}

#[test]
fn the_wire_table_is_the_one_the_brother_design_documents() {
    assert_eq!(WIRE.len(), Function::ALL.len());
    for (index, func, appnum, label) in WIRE {
        let function = Function::from_button_index(index).unwrap();
        assert_eq!(function.as_str(), func, "key {index}: FUNC");
        assert_eq!(function.appnum(), appnum, "key {index}: APPNUM");
        assert_eq!(function.device_label(), label, "key {index}: label");
        assert_eq!(Function::from_token(func), Some(function));
        assert_eq!(Function::from_appnum(appnum), Some(function));
    }
}

#[test]
fn both_documents_and_the_enum_agree_key_for_key() {
    let api: Vec<(String, String)> =
        PUBLISHED.iter().map(|row| (row.0.to_string(), row.1.to_owned())).collect();
    let wire: Vec<(String, String)> =
        WIRE.iter().map(|row| (row.0.to_string(), row.3.to_owned())).collect();
    assert_eq!(api, wire, "the two tables disagree about index or label");

    let ours: Vec<(String, String)> = Function::ALL
        .iter()
        .map(|f| (f.button_index().to_string(), f.device_label().to_owned()))
        .collect();
    assert_eq!(ours, api);

    for (position, function) in Function::ALL.iter().enumerate() {
        assert_eq!(u32::try_from(position).unwrap(), function.button_index());
    }
}

#[test]
fn an_index_the_table_does_not_hold_resolves_to_nothing() {
    for index in [Function::ALL.len() as u32, 9, u32::MAX] {
        assert_eq!(Function::from_button_index(index), None, "index {index}");
    }
    assert_eq!(Function::from_appnum(4), None);
    assert_eq!(Function::from_appnum(0), None);
    assert_eq!(Function::from_token("SCAN"), None);
    assert_eq!(Function::from_token("file"), None, "the token is upper-case");
}

#[test]
fn the_two_tables_lead_back_to_each_other() {
    for function in Function::ALL {
        let panel = function.to_panel();
        assert_eq!(Function::from_panel(panel), function);
        assert_eq!(panel.as_str(), function.as_str());
        assert_eq!(panel.appnum(), function.appnum());
        assert_eq!(panel.button_index(), function.button_index());
    }
}
