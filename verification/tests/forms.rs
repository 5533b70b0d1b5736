use ulla_site::forms::{
    return_fieldnames, return_filename, single_file_name, Disposition, FieldAction, FormFields,
    MultiformCollector,
};

fn disp(name: Option<&str>, filename: Option<&str>) -> Disposition {
    Disposition { name: name.map(|s| s.to_string()), filename: filename.map(|s| s.to_string()) }
}

#[test]
fn form_fields_read_back_what_was_set() {
    let mut f = FormFields::new();
    assert_eq!(f.get("title_eng"), None);
    f.insert("title_eng".to_string(), "Sea".to_string());
    f.insert("title_de".to_string(), "Meer".to_string());
    assert_eq!(f.get("title_eng").map(|s| s.as_str()), Some("Sea"));
    assert_eq!(f.get("title_de").map(|s| s.as_str()), Some("Meer"));
    f.insert("title_eng".to_string(), "Ocean".to_string());
    assert_eq!(f.get("title_eng").map(|s| s.as_str()), Some("Ocean"));
    assert_eq!(f.get("title_de").map(|s| s.as_str()), Some("Meer"));
    assert_eq!(f.get("video"), None);
}

#[test]
fn field_names_default_to_unknown() {
    assert_eq!(return_fieldnames(&Some(disp(Some("date"), None))), "date");
    assert_eq!(return_fieldnames(&Some(disp(None, None))), "unknown");
    assert_eq!(return_fieldnames(&None), "unknown");
}

#[test]
fn file_names_default_to_default_filename() {
    assert_eq!(return_filename(Some(disp(Some("pic"), Some("a.jpg")))), "a.jpg");
    assert_eq!(return_filename(Some(disp(Some("pic"), None))), "default_filename");
}

#[test]
fn collector_records_uploads_and_text_fields() {
    let mut c = MultiformCollector::new();
    assert!(matches!(c.on_field(None), FieldAction::Skip));
    match c.on_field(Some(disp(Some("title_eng"), None))) {
        FieldAction::ReadText(n) => {
            assert_eq!(n, "title_eng");
            c.on_text(n, "Sea".as_bytes());
        }
        _ => panic!("expected a text field"),
    }
    match c.on_field(Some(disp(Some("pictures"), Some("one.jpg")))) {
        FieldAction::SaveFile(f) => assert_eq!(f, "one.jpg"),
        _ => panic!("expected an upload"),
    }
    match c.on_field(Some(disp(None, Some("two \"x\".jpg")))) {
        FieldAction::SaveFile(f) => assert_eq!(f, "two \"x\".jpg"),
        _ => panic!("expected an upload"),
    }
    assert_eq!(c.filenames, vec!["one.jpg".to_string(), "two \"x\".jpg".to_string()]);
    let fields = c.finish();
    assert_eq!(fields.get("title_eng").map(|s| s.as_str()), Some("Sea"));
    assert_eq!(
        fields.get("filenames").map(|s| s.as_str()),
        Some("[\"one.jpg\",\"two \\\"x\\\".jpg\"]")
    );
}

#[test]
fn filenames_of_a_form_without_uploads_is_an_empty_list() {
    let fields = MultiformCollector::new().finish();
    assert_eq!(fields.get("filenames").map(|s| s.as_str()), Some("[]"));
}

#[test]
fn filenames_list_matches_serde_json() {
    let mut c = MultiformCollector::new();
    let names = ["a.jpg", "tab\there", "back\\slash", "ctl\u{1}", "ümlaut"];
    for n in names {
        let _ = c.on_field(Some(disp(Some("f"), Some(n))));
    }
    let expected = serde_json::to_string(&names.iter().map(|s| s.to_string()).collect::<Vec<_>>()).unwrap();
    assert_eq!(c.finish().get("filenames").unwrap(), &expected);
}

#[test]
fn filenames_field_wins_over_a_text_field_of_that_name() {
    let mut c = MultiformCollector::new();
    c.on_text("filenames".to_string(), b"typed");
    let fields = c.finish();
    assert_eq!(fields.get("filenames").map(|s| s.as_str()), Some("[]"));
}

#[test]
fn text_with_invalid_utf8_is_decoded_lossily() {
    let mut c = MultiformCollector::new();
    c.on_text("bio".to_string(), &[b'a', 0xff, b'b']);
    assert_eq!(c.fields.get("bio").map(|s| s.as_str()), Some("a\u{fffd}b"));
}

#[test]
fn single_file_name_reads_a_one_element_list() {
    assert_eq!(single_file_name("[\"portrait.jpg\"]"), Some("portrait.jpg".to_string()));
    assert_eq!(single_file_name("[\"\"]"), Some(String::new()));
}

#[test]
fn single_file_name_of_too_short_text_is_none() {
    assert_eq!(single_file_name("[]"), None);
    assert_eq!(single_file_name("abc"), None);
}

#[test]
fn single_file_name_off_a_char_boundary_is_none() {
    // "xäy" is four bytes; byte 2 falls inside "ä".
    assert_eq!(single_file_name("xäy"), None);
    assert_eq!(single_file_name("äxyz"), Some("x".to_string()));
}

#[test]
fn single_upload_name_round_trips() {
    let mut c = MultiformCollector::new();
    let _ = c.on_field(Some(disp(Some("pfp"), Some("me.png"))));
    let fields = c.finish();
    assert_eq!(single_file_name(fields.get("filenames").unwrap()), Some("me.png".to_string()));
}
