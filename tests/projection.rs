use mison::{Field, Query};

fn query(fields: &[&[&str]]) -> Query {
    Query::new(
        fields
            .iter()
            .map(|p| p.iter().map(|s| s.to_string()).collect())
            .collect(),
    )
}

fn project(q: &Query, json: &str) -> Vec<(String, String)> {
    let mut record = q.record(json.as_bytes().to_vec());
    let mut out = Vec::new();
    while let Some((key, field, start)) = record.next_hit() {
        assert!(matches!(field, Field::Simple));
        out.push((key, json[start..].to_string()));
    }
    out
}

const BUSINESS: &str = r#"{"id":"Apn5Q_b","name":"Minhas \"Micro\" Brewery","attributes":{"BikeParking":"False"}}"#;

#[test]
fn projects_one_field() {
    let out = project(&query(&[&["name"]]), BUSINESS);
    assert_eq!(out.len(), 1);
    assert_eq!(out[0].0, "name");
    assert!(out[0].1.starts_with(r#""Minhas \"Micro\" Brewery","#));
}

#[test]
fn projects_fields_in_source_order() {
    let out = project(&query(&[&["name"], &["id"]]), BUSINESS);
    assert_eq!(out.len(), 2);
    assert_eq!(out[0].0, "id");
    assert!(out[0].1.starts_with(r#""Apn5Q_b","#));
    assert_eq!(out[1].0, "name");
}

#[test]
fn duplicate_key_yields_first_only() {
    let out = project(&query(&[&["a"]]), r#"{"a":1,"b":2,"a":3}"#);
    assert_eq!(out, vec![("a".to_string(), "1,\"b\":2,\"a\":3}".to_string())]);
}

#[test]
fn nested_key_is_not_top_level() {
    let out = project(&query(&[&["y"]]), r#"{"x":{"y":1},"y":2}"#);
    assert_eq!(out, vec![("y".to_string(), "2}".to_string())]);
}

#[test]
fn colon_inside_string_value() {
    let out = project(&query(&[&["s"], &["k"]]), r#"{"s":"a:b","k":7}"#);
    assert_eq!(out.len(), 2);
    assert_eq!(out[0].0, "s");
    assert!(out[0].1.starts_with(r#""a:b","#));
    assert_eq!(out[1], ("k".to_string(), "7}".to_string()));
}

#[test]
fn string_and_number_fields() {
    let out = project(&query(&[&["name"], &["stars"]]), r#"{"name":"Joe","stars":4.5}"#);
    assert_eq!(out.len(), 2);
    assert!(out[0].1.starts_with(r#""Joe","#));
    assert_eq!(out[1], ("stars".to_string(), "4.5}".to_string()));
}

#[test]
fn empty_record_emits_nothing() {
    assert!(project(&query(&[&["a"]]), "{}").is_empty());
}

#[test]
fn unreadable_key_is_skipped() {
    let out = project(&query(&[&["b"]]), r#"{x:1,"b":2}"#);
    assert_eq!(out, vec![("b".to_string(), "2}".to_string())]);
}

#[test]
fn unrequested_keys_are_skipped() {
    let out = project(&query(&[&["c"]]), r#"{"a":1,"b":2,"c":3}"#);
    assert_eq!(out, vec![("c".to_string(), "3}".to_string())]);
}

#[test]
fn empty_query_emits_nothing() {
    assert!(project(&query(&[]), r#"{"a":1}"#).is_empty());
    assert!(project(&query(&[&[]]), r#"{"a":1}"#).is_empty());
}

#[test]
fn each_record_starts_with_every_field() {
    let q = query(&[&["a"]]);
    assert_eq!(project(&q, r#"{"a":1}"#).len(), 1);
    assert_eq!(project(&q, r#"{"a":2}"#).len(), 1);
}

#[test]
fn nested_path_reports_rest_of_path() {
    let q = query(&[&["name"], &["hours", "Saturday"]]);
    let json = r#"{"hours":{"Saturday":"9-5"},"name":"Joe"}"#;
    let mut record = q.record(json.as_bytes().to_vec());
    let (key, field, start) = record.next_hit().unwrap();
    assert_eq!(key, "hours");
    assert_eq!(start, 9);
    match field {
        Field::Nested(rest) => assert_eq!(rest, vec!["Saturday".to_string()]),
        Field::Simple => panic!("expected a nested field"),
    }
    let (key, field, _) = record.next_hit().unwrap();
    assert_eq!(key, "name");
    assert!(matches!(field, Field::Simple));
    assert!(record.next_hit().is_none());
}

#[test]
fn later_path_replaces_earlier_with_same_key() {
    let q = query(&[&["a", "b"], &["a"]]);
    let mut record = q.record(br#"{"a":1}"#.to_vec());
    let (_, field, _) = record.next_hit().unwrap();
    assert!(matches!(field, Field::Simple));
}

#[test]
fn key_with_escaped_quote_matches() {
    let out = project(&query(&[&[r#"a\"b"#]]), r#"{"a\"b":1}"#);
    assert_eq!(out, vec![(r#"a\"b"#.to_string(), "1}".to_string())]);
}

#[test]
fn deep_path_is_indexed() {
    let q = query(&[&["a", "b", "c", "d"]]);
    let mut record = q.record(br#"{"a":{"b":{"c":{"d":1}}}}"#.to_vec());
    let (key, field, _) = record.next_hit().unwrap();
    assert_eq!(key, "a");
    match field {
        Field::Nested(rest) => assert_eq!(rest.len(), 3),
        Field::Simple => panic!("expected a nested field"),
    }
    assert_eq!(record.bytes().len(), 25);
}

#[test]
fn record_with_unmatched_closing_brace_is_abandoned() {
    assert!(project(&query(&[&["a"]]), r#"}{"a":1}"#).is_empty());
    assert!(project(&query(&[&["a"]]), r#"{"a":1}}"#).is_empty());
}
