use pushover_sns::{from_wire, to_wire, NotificationPayload};

fn payload(api_key_name: &str, title: &str, message: &str) -> NotificationPayload {
    NotificationPayload::new(api_key_name.to_string(), title.to_string(), message.to_string())
}

fn round_trip(p: &NotificationPayload) {
    let wire = to_wire(p).unwrap();
    let back = from_wire(&wire).expect("wire form parses");
    assert_eq!(back.api_key_name, p.api_key_name);
    assert_eq!(back.title, p.title);
    assert_eq!(back.message, p.message);
}

#[test]
fn build_failed_wire_form_is_exact() {
    let p = payload("pushover-default", "Build failed", "job#42 exited 1");
    assert_eq!(
        to_wire(&p).unwrap(),
        r#"{"api_key_name":"pushover-default","title":"Build failed","message":"job#42 exited 1"}"#
    );
}

#[test]
fn empty_message_is_kept_as_empty_string() {
    let p = payload("pushover-default", "Build failed", "");
    let wire = to_wire(&p).unwrap();
    assert_eq!(wire, r#"{"api_key_name":"pushover-default","title":"Build failed","message":""}"#);
    round_trip(&p);
}

#[test]
fn all_fields_empty_round_trip() {
    let p = payload("", "", "");
    assert_eq!(to_wire(&p).unwrap(), r#"{"api_key_name":"","title":"","message":""}"#);
    round_trip(&p);
}

#[test]
fn quotes_and_backslashes_are_escaped() {
    let p = payload("k", "say \"hi\"", "C:\\path\\");
    assert_eq!(
        to_wire(&p).unwrap(),
        r#"{"api_key_name":"k","title":"say \"hi\"","message":"C:\\path\\"}"#
    );
    round_trip(&p);
}

#[test]
fn control_characters_are_escaped() {
    let p = payload("k", "a\tb\nc\r", "\u{8}\u{c}\u{1}\u{1f}");
    assert_eq!(
        to_wire(&p).unwrap(),
        r#"{"api_key_name":"k","title":"a\tb\nc\r","message":"\b\f\u0001\u001f"}"#
    );
    round_trip(&p);
}

#[test]
fn unicode_round_trip() {
    let p = payload("clé", "Übersicht ✓", "日本語 🚀 \u{7f}");
    let wire = to_wire(&p).unwrap();
    assert!(wire.contains("日本語 🚀"));
    round_trip(&p);
}

#[test]
fn field_text_that_looks_like_framing_round_trips() {
    let p = payload("\",\"title\":\"x", "\\\"", "}{\"message\":\"\"}");
    round_trip(&p);
}

#[test]
fn wire_form_is_a_json_object_of_three_strings() {
    let p = payload("pushover-default", "tab\there", "quote\" and \\");
    let wire = to_wire(&p).unwrap();
    let value: serde_json::Value = serde_json::from_str(&wire).unwrap();
    let object = value.as_object().unwrap();
    assert_eq!(object.len(), 3);
    assert_eq!(object["api_key_name"].as_str(), Some("pushover-default"));
    assert_eq!(object["title"].as_str(), Some("tab\there"));
    assert_eq!(object["message"].as_str(), Some("quote\" and \\"));
}

#[test]
fn parse_decodes_escapes() {
    let p = from_wire(r#"{"api_key_name":"a\"b","title":"line\nbreak","message":"\u0001"}"#).unwrap();
    assert_eq!(p.api_key_name, "a\"b");
    assert_eq!(p.title, "line\nbreak");
    assert_eq!(p.message, "\u{1}");
}

#[test]
fn parse_rejects_other_texts() {
    assert!(from_wire("").is_none());
    assert!(from_wire("{}").is_none());
    assert!(from_wire(r#"{"api_key_name":"a","title":"b"}"#).is_none());
    assert!(from_wire(r#"{ "api_key_name":"a","title":"b","message":"c"}"#).is_none());
    assert!(from_wire(r#"{"title":"b","api_key_name":"a","message":"c"}"#).is_none());
    assert!(from_wire(r#"{"api_key_name":"a","title":"b","message":"c"} "#).is_none());
    assert!(from_wire(r#"{"api_key_name":"a","title":"b","message":"c"#).is_none());
    assert!(from_wire(r#"{"api_key_name":"a\/","title":"b","message":"c"}"#).is_none());
    assert!(from_wire(r#"{"api_key_name":"a\"#).is_none());
}
