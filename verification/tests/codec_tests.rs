use std::collections::HashMap;

use yuairender::RenderError;
use yuairender::RenderOutput;
use yuairender::YuaiRender;
use yuairender::strmap::StrMap;

fn row(pairs: &[(&str, &str)]) -> StrMap {
    let mut m = StrMap::new();
    for (k, v) in pairs {
        m.set((*k).to_string(), (*v).to_string());
    }
    m
}

fn rendered(r: Result<RenderOutput, RenderError>) -> String {
    match r {
        Ok(RenderOutput::Rendered(s)) => s,
        Ok(RenderOutput::Raw(_)) => panic!("raw output is never produced"),
        Err(e) => panic!("unexpected render failure: {:?}", e),
    }
}

fn encode(format: &str, data: Option<Vec<StrMap>>) -> String {
    let files = StrMap::new();
    let r = YuaiRender::new(format, None).unwrap();
    rendered(r.render(data, &files))
}

#[test]
fn json_round_trip_reproduces_rows_and_values() {
    let rows = vec![
        row(&[("name", "Jack"), ("speed", "0.9")]),
        row(&[("name", "Ann \"the quick\""), ("note", "line1\nline2\t\u{1}")]),
    ];
    let out = encode("json", Some(rows));
    let decoded: Option<Vec<HashMap<String, String>>> = serde_json::from_str(&out).unwrap();
    let decoded = decoded.unwrap();
    assert_eq!(decoded.len(), 2);
    assert_eq!(decoded[0]["name"], "Jack");
    assert_eq!(decoded[0]["speed"], "0.9");
    assert_eq!(decoded[0].len(), 2);
    assert_eq!(decoded[1]["name"], "Ann \"the quick\"");
    assert_eq!(decoded[1]["note"], "line1\nline2\t\u{1}");
    assert_eq!(decoded[1].len(), 2);
}

#[test]
fn json_absent_dataset_is_null() {
    assert_eq!(encode("json", None), "null");
}

#[test]
fn json_empty_dataset_is_empty_array() {
    assert_eq!(encode("json", Some(Vec::new())), "[]");
}

#[test]
fn json_exact_output_for_one_row() {
    let rows = vec![row(&[("a", "x"), ("b", "say \"hi\"")])];
    assert_eq!(
        encode("json", Some(rows)),
        "[{\"a\":\"x\",\"b\":\"say \\\"hi\\\"\"}]"
    );
}

#[test]
fn csv_doubles_embedded_quotes() {
    let rows = vec![row(&[("a", "x\"y"), ("b", "2")])];
    assert_eq!(encode("csv", Some(rows)), "a,b\n\"x\"\"y\",\"2\"\n");
}

#[test]
fn csv_header_uses_first_row_field_order() {
    let rows = vec![row(&[("z", "1"), ("a", "2")]), row(&[("z", "3"), ("a", "4")])];
    assert_eq!(encode("csv", Some(rows)), "z,a\n\"1\",\"2\"\n\"3\",\"4\"\n");
}

#[test]
fn csv_absent_and_empty_agree() {
    assert_eq!(encode("csv", None), "");
    assert_eq!(encode("csv", Some(Vec::new())), "");
}

#[test]
fn xml_wraps_rows_and_fields() {
    let rows = vec![row(&[("name", "Jack")])];
    assert_eq!(
        encode("xml", Some(rows)),
        "<?xml version=\"1.0\" encoding=\"UTF-8\"?>\n<rows>\n  <row>\n    <name>Jack</name>\n  </row>\n</rows>"
    );
}

#[test]
fn xml_absent_and_empty_agree() {
    assert_eq!(encode("xml", None), "<rows></rows>");
    assert_eq!(encode("xml", Some(Vec::new())), "<rows></rows>");
}

#[test]
fn plain_text_lists_fields_with_separators() {
    let rows = vec![row(&[("name", "Jack"), ("rank", "captain")])];
    assert_eq!(encode("text", Some(rows)), "name: Jack\nrank: captain\n---\n");
}

#[test]
fn plain_text_absent_and_empty_agree() {
    let absent = encode("plain", None);
    let empty = encode("plain", Some(Vec::new()));
    assert_eq!(absent, empty);
    assert!(!absent.is_empty());
}

#[test]
fn protobuf_output_decodes_back_through_base64_and_bincode() {
    let rows = vec![
        row(&[("name", "Jack"), ("ship", "Comet")]),
        row(&[("name", "Ann")]),
    ];
    let out = encode("protobuf", Some(rows));
    let bytes = base64::decode(&out).unwrap();
    let decoded: Option<Vec<Vec<(String, String)>>> = bincode::deserialize(&bytes).unwrap();
    let decoded = decoded.unwrap();
    assert_eq!(
        decoded,
        vec![
            vec![
                ("name".to_string(), "Jack".to_string()),
                ("ship".to_string(), "Comet".to_string()),
            ],
            vec![("name".to_string(), "Ann".to_string())],
        ]
    );
}

#[test]
fn protobuf_absent_dataset_is_tagged_none() {
    let out = encode("proto", None);
    let bytes = base64::decode(&out).unwrap();
    assert_eq!(bytes, vec![0u8]);
    let decoded: Option<Vec<Vec<(String, String)>>> = bincode::deserialize(&bytes).unwrap();
    assert!(decoded.is_none());
}

#[test]
fn row_updates_replace_in_place_and_keep_order() {
    let mut m = StrMap::new();
    m.set("a".to_string(), "1".to_string());
    m.set("b".to_string(), "2".to_string());
    m.set("a".to_string(), "3".to_string());
    assert_eq!(encode("csv", Some(vec![m])), "a,b\n\"3\",\"2\"\n");
}

#[test]
fn protobuf_empty_dataset_round_trips() {
    let out = encode("protobuf", Some(Vec::new()));
    let bytes = base64::decode(&out).unwrap();
    let decoded: Option<Vec<Vec<(String, String)>>> = bincode::deserialize(&bytes).unwrap();
    assert_eq!(decoded, Some(Vec::new()));
}

#[test]
fn json_escapes_control_characters_exactly() {
    let rows = vec![row(&[("k", "\u{1f}\u{8}")])];
    let ours = encode("json", Some(rows));
    assert_eq!(ours, "[{\"k\":\"\\u001f\\b\"}]");
}
