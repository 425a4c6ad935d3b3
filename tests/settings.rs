use vongform::setting::{parse_settings, ServiceSetting, ServiceSettingParseError};

fn s(x: &str) -> String {
    x.to_string()
}

#[test]
fn setting_with_version() {
    let r = ServiceSetting::from_str("sessions-2020=1.0.0").unwrap();
    assert_eq!(r.name, "sessions-2020");
    assert_eq!(r.version, Some(s("1.0.0")));
}

#[test]
fn setting_with_empty_version_removes() {
    let r = ServiceSetting::from_str("auth=").unwrap();
    assert_eq!(r.name, "auth");
    assert_eq!(r.version, None);
}

#[test]
fn setting_version_stops_at_second_equals() {
    let r = ServiceSetting::from_str("a=b=c").unwrap();
    assert_eq!(r.name, "a");
    assert_eq!(r.version, Some(s("b")));
}

#[test]
fn setting_without_equals_is_refused() {
    let r = ServiceSetting::from_str("auth");
    assert_eq!(r, Err(ServiceSettingParseError::ExpectedEquals(s("auth"))));
    let e = ServiceSetting::from_str("");
    assert_eq!(e, Err(ServiceSettingParseError::ExpectedEquals(s(""))));
}

#[test]
fn setting_without_name_is_refused() {
    let r = ServiceSetting::from_str("=1.0.0");
    assert_eq!(r, Err(ServiceSettingParseError::ExpectedServiceName(s("=1.0.0"))));
    let e = ServiceSetting::from_str("=");
    assert_eq!(e, Err(ServiceSettingParseError::ExpectedServiceName(s("="))));
}

#[test]
fn settings_all_or_first_error() {
    let ok = parse_settings(&vec![s("a=1"), s("b=")]).unwrap();
    assert_eq!(ok.len(), 2);
    assert_eq!(ok[1].version, None);
    let bad = parse_settings(&vec![s("a=1"), s("b"), s("=c")]);
    assert_eq!(bad, Err(ServiceSettingParseError::ExpectedEquals(s("b"))));
}

#[test]
fn error_message_names_input() {
    let m = ServiceSettingParseError::ExpectedEquals(s("auth")).message();
    assert!(m.contains("auth"));
    assert!(m.contains("\"=\""));
}
