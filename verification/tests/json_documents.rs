use xforme::data::{
    parse_json, parse_yaml, sheets_from_value, value_to_field, DecodeError, DocumentError, JsonValue,
};

/// A decoded `serde_json` document as the library's plain JSON value.
fn doc(v: &serde_json::Value) -> JsonValue {
    match v {
        serde_json::Value::Null => JsonValue::Null,
        serde_json::Value::Bool(b) => JsonValue::Bool(*b),
        serde_json::Value::Number(n) => JsonValue::Number(n.to_string()),
        serde_json::Value::String(s) => JsonValue::Text(s.clone()),
        serde_json::Value::Array(a) => JsonValue::Array(a.iter().map(doc).collect()),
        serde_json::Value::Object(m) => {
            JsonValue::Object(m.iter().map(|(k, v)| (k.clone(), doc(v))).collect())
        }
    }
}

fn text(s: &str) -> JsonValue {
    JsonValue::Text(s.to_string())
}

fn object(entries: Vec<(&str, JsonValue)>) -> JsonValue {
    JsonValue::Object(entries.into_iter().map(|(k, v)| (k.to_string(), v)).collect())
}

fn named<'a>(r: &'a xforme::data::Record, key: &str) -> &'a str {
    r.named.get(key).map(|s| s.as_str()).unwrap()
}

#[test]
fn parses_json_named_records() {
    let src = r#"{
        "template": "SalesReceipt", "title": "Sales Receipt",
        "records": [
            { "label": "header", "date": "1/5/2009", "receipt": "22215" },
            { "label": "row1", "qty": 2, "desc": "Widget", "price": 9.99 }
        ]
    }"#;
    let sheets = parse_json(src).unwrap();
    assert_eq!(sheets.len(), 1);
    let s = &sheets[0];
    assert_eq!(s.template, "SalesReceipt");
    assert_eq!(s.title, "Sales Receipt");
    assert_eq!(named(&s.records[0], "receipt"), "22215");
    assert_eq!(named(&s.records[1], "qty"), "2"); // integer
    assert_eq!(named(&s.records[1], "price"), "9.99"); // float
    assert_eq!(s.records[1].label, "row1");
}

#[test]
fn parses_yaml_named_records() {
    let src = "template: SalesReceipt\n\
               title: Sales Receipt\n\
               records:\n\
               \x20 - label: row1\n\
               \x20   qty: 2\n\
               \x20   desc: Widget\n\
               \x20   price: 9.99\n";
    let sheets = parse_yaml(src).unwrap();
    let r = &sheets[0].records[0];
    assert_eq!(r.label, "row1");
    assert_eq!(named(r, "qty"), "2");
    assert_eq!(named(r, "price"), "9.99");
    assert_eq!(named(r, "desc"), "Widget");
}

#[test]
fn positional_fields_and_skipped_values() {
    let v = object(vec![
        ("template", text("T")),
        (
            "records",
            JsonValue::Array(vec![object(vec![
                ("label", text("row1")),
                (
                    "fields",
                    JsonValue::Array(vec![
                        text("a"),
                        JsonValue::Number("3".to_string()),
                        JsonValue::Null,
                        JsonValue::Bool(true),
                        JsonValue::Array(vec![]),
                    ]),
                ),
                ("flag", JsonValue::Bool(false)),
                ("nothing", JsonValue::Null),
                ("nested", object(vec![])),
            ])]),
        ),
    ]);
    let sheets = sheets_from_value(v).unwrap();
    let s = &sheets[0];
    assert_eq!(s.title, "");
    let r = &s.records[0];
    assert_eq!(r.fields, vec!["a", "3", "true"]);
    assert_eq!(named(r, "flag"), "false");
    assert_eq!(r.named.get("nothing"), None);
    assert_eq!(r.named.get("nested"), None);
    assert_eq!(r.named.get("label"), None);
    assert_eq!(r.named.get("fields"), None);
    assert_eq!(r.named.len(), 1);
}

#[test]
fn array_of_sheets() {
    let sheet = |t: &str| {
        object(vec![
            ("template", text(t)),
            ("title", JsonValue::Number("1".to_string())),
            ("records", JsonValue::Array(vec![])),
        ])
    };
    let sheets = sheets_from_value(JsonValue::Array(vec![sheet("A"), sheet("B")])).unwrap();
    assert_eq!(sheets.len(), 2);
    assert_eq!(sheets[0].template, "A");
    assert_eq!(sheets[1].template, "B");
    // A non-string title reads as no title.
    assert_eq!(sheets[1].title, "");
    assert_eq!(sheets_from_value(JsonValue::Array(vec![])).unwrap().len(), 0);
}

#[test]
fn document_errors() {
    assert_eq!(sheets_from_value(text("x")).unwrap_err(), DocumentError::NotSheets);
    assert_eq!(
        sheets_from_value(JsonValue::Array(vec![JsonValue::Null])).unwrap_err(),
        DocumentError::SheetNotObject
    );
    assert_eq!(
        sheets_from_value(object(vec![("records", JsonValue::Array(vec![]))])).unwrap_err(),
        DocumentError::MissingTemplate
    );
    assert_eq!(
        sheets_from_value(object(vec![("template", text("T"))])).unwrap_err(),
        DocumentError::MissingRecords
    );
    assert_eq!(
        sheets_from_value(object(vec![
            ("template", text("T")),
            ("records", JsonValue::Array(vec![text("r")])),
        ]))
        .unwrap_err(),
        DocumentError::RecordNotObject
    );
    assert_eq!(
        sheets_from_value(object(vec![
            ("template", text("T")),
            (
                "records",
                JsonValue::Array(vec![object(vec![("label", JsonValue::Bool(true))])])
            ),
        ]))
        .unwrap_err(),
        DocumentError::MissingLabel
    );
    // The first bad sheet decides the error.
    let good = object(vec![("template", text("T")), ("records", JsonValue::Array(vec![]))]);
    let bad = object(vec![("title", text("x"))]);
    assert_eq!(
        sheets_from_value(JsonValue::Array(vec![good, bad, JsonValue::Null])).unwrap_err(),
        DocumentError::MissingTemplate
    );
    assert_eq!(
        DocumentError::MissingRecords.message(),
        "sheet is missing a `records` array"
    );
}

#[test]
fn scalar_values_as_fields() {
    assert_eq!(value_to_field(&text("x")), Some("x".to_string()));
    assert_eq!(value_to_field(&JsonValue::Number("-1.5e3".to_string())), Some("-1.5e3".to_string()));
    assert_eq!(value_to_field(&JsonValue::Bool(true)), Some("true".to_string()));
    assert_eq!(value_to_field(&JsonValue::Null), None);
    assert_eq!(value_to_field(&JsonValue::Array(vec![])), None);
}

#[test]
fn decode_errors() {
    match parse_json("{ not json") {
        Err(DecodeError::Syntax(msg)) => assert!(!msg.is_empty()),
        _ => panic!("expected a syntax error"),
    }
    match parse_json("[1]") {
        Err(DecodeError::Document(e)) => assert_eq!(e, DocumentError::SheetNotObject),
        _ => panic!("expected a document error"),
    }
    match parse_yaml("template: [unclosed") {
        Err(DecodeError::Syntax(_)) => {}
        _ => panic!("expected a syntax error"),
    }
    let yaml = parse_yaml("template: T\nrecords: []\n").unwrap();
    let json = parse_json(r#"{"template": "T", "records": []}"#).unwrap();
    assert_eq!(yaml, json);
}
