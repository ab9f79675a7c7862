use mison::scalar::{scalar_at, Scalar};

fn span(r: Option<Scalar>) -> Option<(&'static str, usize, usize)> {
    match r? {
        Scalar::Null => Some(("null", 0, 0)),
        Scalar::Bool(true) => Some(("true", 0, 0)),
        Scalar::Bool(false) => Some(("false", 0, 0)),
        Scalar::Number(a, b) => Some(("number", a, b)),
        Scalar::String(a, b) => Some(("string", a, b)),
    }
}

#[test]
fn string_value_is_raw_slice_between_structural_quotes() {
    let json = br#"{"name":"Minhas \"Micro\" Brewery","x":1}"#;
    let (kind, a, b) = span(scalar_at(json, 8)).unwrap();
    assert_eq!(kind, "string");
    assert_eq!(&json[a..b], br#"Minhas \"Micro\" Brewery"#);
}

#[test]
fn string_value_ending_in_escaped_backslash() {
    let json = br#"{"k":"a\\","z":1}"#;
    let (kind, a, b) = span(scalar_at(json, 5)).unwrap();
    assert_eq!(kind, "string");
    assert_eq!(&json[a..b], br#"a\\"#);
}

#[test]
fn number_value_runs_to_delimiter() {
    let json = br#"{"stars":4.5}"#;
    assert_eq!(span(scalar_at(json, 9)), Some(("number", 9, 12)));
    let json = br#"{"a":-1,"b":2}"#;
    assert_eq!(span(scalar_at(json, 5)), Some(("number", 5, 7)));
}

#[test]
fn words_and_whitespace() {
    assert_eq!(span(scalar_at(b"{\"a\": null}", 5)), Some(("null", 0, 0)));
    assert_eq!(span(scalar_at(b"{\"a\":true}", 5)), Some(("true", 0, 0)));
    assert_eq!(span(scalar_at(b"{\"a\":\tfalse}", 5)), Some(("false", 0, 0)));
}

#[test]
fn unrecognised_values() {
    assert!(scalar_at(b"{\"a\":nul}", 5).is_none());
    assert!(scalar_at(b"{\"a\":{\"b\":1}}", 5).is_none());
    assert!(scalar_at(b"{\"a\":\"open", 5).is_none());
    assert!(scalar_at(b"{\"a\":12", 5).is_none());
    assert!(scalar_at(b"{\"a\":", 5).is_none());
    assert!(scalar_at(b"   ", 0).is_none());
}
