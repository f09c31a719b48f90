use river::csv_export::{sanitize_csv_cell, value_to_csv_cell, CsvExporter};
use river::export::{ExportError, Exporter, TxtExporter};
use river::json_export::{val_to_json, JsonExporter};
use river::render_table::render;
use river::value::{QueryResult, Value};
use river::xlsx_export::{sheet_cells, SheetContent};
use river::xml_export::XmlExporter;

fn sample_result() -> QueryResult {
    QueryResult {
        columns: vec!["id".into(), "name".into(), "active".into()],
        column_sources: vec![None, None, None],
        rows: vec![
            vec![Value::Int(1), Value::String("Alice".into()), Value::Bool(true)],
            vec![Value::Int(2), Value::String("Bob".into()), Value::Null],
        ],
        elapsed_ms: 5,
        rows_affected: 0,
    }
}

#[test]
fn csv_export_writes_header_and_rows() {
    let bytes = CsvExporter.write(&sample_result(), &[]).unwrap();
    assert_eq!(String::from_utf8(bytes).unwrap(), "id,name,active\n1,Alice,true\n2,Bob,\n");
}

#[test]
fn csv_export_round_trips_columns_and_values() {
    let bytes = CsvExporter.write(&sample_result(), &[]).unwrap();
    let mut reader = csv::Reader::from_reader(bytes.as_slice());
    let headers: Vec<String> = reader.headers().unwrap().iter().map(|s| s.to_string()).collect();
    assert_eq!(headers, vec!["id", "name", "active"]);
    let records: Vec<csv::StringRecord> = reader.records().map(|r| r.unwrap()).collect();
    assert_eq!(records.len(), 2);
    assert_eq!(records[0].get(0), Some("1"));
    assert_eq!(records[0].get(1), Some("Alice"));
    assert_eq!(records[0].get(2), Some("true"));
    assert_eq!(records[1].get(2), Some(""));
}

#[test]
fn csv_export_quotes_and_sanitizes() {
    let r = QueryResult {
        columns: vec!["a".into(), "b".into()],
        column_sources: vec![None, None],
        rows: vec![vec![Value::String("x,y".into()), Value::String("=SUM(A1)".into())]],
        elapsed_ms: 0,
        rows_affected: 0,
    };
    let text = String::from_utf8(CsvExporter.write(&r, &[]).unwrap()).unwrap();
    assert_eq!(text, "a,b\n\"x,y\",'=SUM(A1)\n");
}

#[test]
fn sanitize_prefixes_formula_starts_only() {
    assert_eq!(sanitize_csv_cell("=1+1"), "'=1+1");
    assert_eq!(sanitize_csv_cell("+1"), "'+1");
    assert_eq!(sanitize_csv_cell("-1"), "'-1");
    assert_eq!(sanitize_csv_cell("@x"), "'@x");
    assert_eq!(sanitize_csv_cell("a=1"), "a=1");
    assert_eq!(sanitize_csv_cell(""), "");
    for s in ["=x", "plain", "-", ""] {
        let out = sanitize_csv_cell(s);
        assert!(!out.starts_with(['=', '+', '-', '@']));
        assert!(out == s || out == format!("'{}", s));
    }
}

#[test]
fn csv_cell_sanitizes_text_only() {
    assert_eq!(value_to_csv_cell(&Value::Int(-5), &[]), "-5");
    assert_eq!(value_to_csv_cell(&Value::String("-5".into()), &[]), "'-5");
    assert_eq!(value_to_csv_cell(&Value::Null, &[]), "");
    let bits = 2.5f64.to_bits();
    assert_eq!(value_to_csv_cell(&Value::Float(bits), &[(bits, "2.5".to_string())]), "2.5");
}

#[test]
fn txt_export_is_the_rendered_table() {
    let bytes = TxtExporter.write(&sample_result(), &[]).unwrap();
    let content = String::from_utf8(bytes).unwrap();
    assert_eq!(content, render(&sample_result(), &[]));
    assert!(content.contains("Alice"));
    assert!(content.contains("Bob"));
}

#[test]
fn xml_export_wraps_rows_and_columns() {
    let content = String::from_utf8(XmlExporter.write(&sample_result(), &[]).unwrap()).unwrap();
    assert!(content.contains("<results"));
    assert!(content.contains("columns=\"id,name,active\""));
    assert!(content.contains("<row>"));
    assert!(content.contains("<col name=\"name\">Alice</col>"));
    assert!(content.contains("<col name=\"name\">Bob</col>"));
    assert_eq!(
        content,
        "<results columns=\"id,name,active\"><row><col name=\"id\">1</col><col name=\"name\">Alice</col>\
<col name=\"active\">true</col></row><row><col name=\"id\">2</col><col name=\"name\">Bob</col>\
<col name=\"active\"></col></row></results>"
    );
}

#[test]
fn xml_export_escapes_text_and_attributes() {
    let r = QueryResult {
        columns: vec!["a\"b".into()],
        column_sources: vec![None],
        rows: vec![vec![Value::String("<x & 'y'>".into())]],
        elapsed_ms: 0,
        rows_affected: 0,
    };
    let content = String::from_utf8(XmlExporter.write(&r, &[]).unwrap()).unwrap();
    assert_eq!(
        content,
        "<results columns=\"a&quot;b\"><row><col name=\"a&quot;b\">&lt;x &amp; &apos;y&apos;&gt;</col></row></results>"
    );
}

#[test]
fn json_export_serializes_columns_rows_and_null() {
    let bytes = JsonExporter.write(&sample_result(), &[]);
    let v: serde_json::Value = serde_json::from_slice(&bytes).unwrap();
    assert_eq!(v["columns"], serde_json::Value::from(vec!["id", "name", "active"]));
    assert_eq!(v["rows"][0]["name"], serde_json::Value::from("Alice"));
    assert_eq!(v["rows"][0]["active"], serde_json::Value::from(true));
    assert_eq!(v["rows"][1]["active"], serde_json::Value::Null);
    assert_eq!(v["rows_affected"], serde_json::Value::from(0));
    assert_eq!(v["elapsed_ms"], serde_json::Value::from(5));
}

#[test]
fn json_rows_have_exactly_the_column_keys() {
    let bytes = JsonExporter.write(&sample_result(), &[]);
    let v: serde_json::Value = serde_json::from_slice(&bytes).unwrap();
    for row in v["rows"].as_array().unwrap() {
        let mut keys: Vec<&String> = row.as_object().unwrap().keys().collect();
        keys.sort();
        assert_eq!(keys, vec!["active", "id", "name"]);
    }
}

#[test]
fn json_floats_use_the_given_values_and_non_finite_become_null() {
    let finite = 1.25f64.to_bits();
    let values = vec![(finite, serde_json::Value::from(1.25f64))];
    assert_eq!(val_to_json(&Value::Float(finite), &values), serde_json::Value::from(1.25f64));
    assert_eq!(val_to_json(&Value::Float(f64::NAN.to_bits()), &values), serde_json::Value::Null);
    assert_eq!(val_to_json(&Value::Float(f64::INFINITY.to_bits()), &values), serde_json::Value::Null);
    assert_eq!(val_to_json(&Value::Int(-3), &values), serde_json::Value::from(-3));
    assert_eq!(val_to_json(&Value::String("s".into()), &values), serde_json::Value::from("s"));
}

#[test]
fn json_export_is_pretty_printed() {
    let r = QueryResult {
        columns: vec!["x".into()],
        column_sources: vec![None],
        rows: vec![vec![Value::Int(1)]],
        elapsed_ms: 2,
        rows_affected: 0,
    };
    let text = String::from_utf8(JsonExporter.write(&r, &[])).unwrap();
    assert_eq!(
        text,
        "{\n  \"columns\": [\n    \"x\"\n  ],\n  \"elapsed_ms\": 2,\n  \"rows\": [\n    {\n      \"x\": 1\n    }\n  ],\n  \"rows_affected\": 0\n}"
    );
}

#[test]
fn xlsx_layout_puts_header_then_typed_cells() {
    let cells = sheet_cells(&sample_result());
    // Three header cells, then five non-null cells.
    assert_eq!(cells.len(), 3 + 5);
    assert!(matches!(&cells[0].content, SheetContent::Header(s) if s == "id"));
    assert_eq!((cells[0].row, cells[0].col), (0, 0));
    assert!(matches!(&cells[3].content, SheetContent::Number(b) if f64::from_bits(*b) == 1.0));
    assert_eq!((cells[3].row, cells[3].col), (1, 0));
    assert!(matches!(&cells[5].content, SheetContent::Boolean(true)));
    assert!(matches!(&cells[7].content, SheetContent::Text(s) if s == "Bob"));
    assert_eq!((cells[7].row, cells[7].col), (2, 1));
}

#[test]
fn xml_export_writes_rows_shorter_than_the_columns() {
    let r = QueryResult {
        columns: vec!["a".into(), "b".into()],
        column_sources: vec![None, None],
        rows: vec![vec![Value::Int(1)], vec![]],
        elapsed_ms: 0,
        rows_affected: 0,
    };
    let content = String::from_utf8(XmlExporter.write(&r, &[]).unwrap()).unwrap();
    assert_eq!(
        content,
        "<results columns=\"a,b\"><row><col name=\"a\">1</col></row><row></row></results>"
    );
}

#[test]
fn csv_export_refuses_rows_of_another_length() {
    let r = QueryResult {
        columns: vec!["a".into(), "b".into()],
        column_sources: vec![None, None],
        rows: vec![vec![Value::Int(1), Value::Int(2)], vec![Value::Int(3)]],
        elapsed_ms: 0,
        rows_affected: 0,
    };
    match CsvExporter.write(&r, &[]) {
        Err(ExportError::Csv(e)) => assert!(matches!(e.kind(), csv::ErrorKind::UnequalLengths { .. })),
        Ok(_) => panic!("a short row was accepted"),
    }
}
