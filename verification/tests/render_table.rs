use river::connection::DatabaseKind;
use river::render_table::{pad, render, summary_line, value_to_string};
use river::value::{QueryResult, Value};

fn sample_result() -> QueryResult {
    QueryResult {
        columns: vec!["id".into(), "name".into()],
        column_sources: vec![None, None],
        rows: vec![
            vec![Value::Int(1), Value::String("Alice".into())],
            vec![Value::Int(2), Value::String("Bob".into())],
        ],
        elapsed_ms: 12,
        rows_affected: 0,
    }
}

#[test]
fn render_aligns_columns_and_includes_header_and_rows() {
    let table = render(&sample_result(), &[]);
    assert!(table.contains("| id | name  |"));
    assert!(table.contains("| -- | ----- |"));
    assert!(table.contains("| 1  | Alice |"));
    assert!(table.contains("| 2  | Bob   |"));
}

#[test]
fn render_empty_result_shows_no_rows() {
    let empty = QueryResult {
        columns: vec![],
        column_sources: vec![],
        rows: vec![],
        elapsed_ms: 0,
        rows_affected: 0,
    };
    assert_eq!(render(&empty, &[]), "(no rows)\n");
}

#[test]
fn summary_line_includes_connection_when_single_source() {
    let source_db = vec![("test".into(), DatabaseKind::SQLite)];
    let line = summary_line(&sample_result(), &source_db);
    assert_eq!(line, "2 rows in 12ms (SQLite@test)");
}

#[test]
fn summary_line_omits_connection_when_multiple_sources() {
    let source_db = vec![
        ("a".into(), DatabaseKind::SQLite),
        ("b".into(), DatabaseKind::Postgres),
    ];
    let line = summary_line(&sample_result(), &source_db);
    assert_eq!(line, "2 rows in 12ms");
}

#[test]
fn render_whole_table_text() {
    let table = render(&sample_result(), &[]);
    assert_eq!(
        table,
        "| id | name  |\n| -- | ----- |\n| 1  | Alice |\n| 2  | Bob   |\n"
    );
}

#[test]
fn render_lines_all_have_the_same_length() {
    let r = QueryResult {
        columns: vec!["a".into(), "longer header".into(), "c".into()],
        column_sources: vec![None, None, None],
        rows: vec![
            vec![Value::Null, Value::Bool(false), Value::String("a much longer cell".into())],
            vec![Value::Int(-12345), Value::Null, Value::String(String::new())],
        ],
        elapsed_ms: 0,
        rows_affected: 0,
    };
    let table = render(&r, &[]);
    let lens: Vec<usize> = table.lines().map(|l| l.chars().count()).collect();
    assert_eq!(lens.len(), 4);
    assert!(lens.iter().all(|&n| n == lens[0]));
    // The leading bar, then each width plus three (the newline is not counted by `lines`).
    assert_eq!(lens[0], 1 + (6 + 3) + (13 + 3) + (18 + 3));
}

#[test]
fn render_header_only_when_no_rows() {
    let r = QueryResult {
        columns: vec!["x".into()],
        column_sources: vec![None],
        rows: vec![],
        elapsed_ms: 0,
        rows_affected: 0,
    };
    assert_eq!(render(&r, &[]), "| x |\n| - |\n");
}

#[test]
fn render_counts_characters_not_bytes() {
    let r = QueryResult {
        columns: vec!["n".into()],
        column_sources: vec![None],
        rows: vec![vec![Value::String("äö".into())]],
        elapsed_ms: 0,
        rows_affected: 0,
    };
    assert_eq!(render(&r, &[]), "| n  |\n| -- |\n| äö |\n");
}

#[test]
fn render_shows_floats_by_their_given_text() {
    let bits = 3.0f64.to_bits();
    let r = QueryResult {
        columns: vec!["f".into()],
        column_sources: vec![None],
        rows: vec![vec![Value::Float(bits)]],
        elapsed_ms: 0,
        rows_affected: 0,
    };
    let texts = vec![(1.5f64.to_bits(), "1.5".to_string()), (bits, "3.0".to_string())];
    assert_eq!(render(&r, &texts), "| f   |\n| --- |\n| 3.0 |\n");
}

#[test]
fn value_to_string_of_each_kind() {
    assert_eq!(value_to_string(&Value::Null), Some(String::new()));
    assert_eq!(value_to_string(&Value::String("x".into())), Some("x".to_string()));
    assert_eq!(value_to_string(&Value::Int(42)), Some("42".to_string()));
    assert_eq!(value_to_string(&Value::Int(-7)), Some("-7".to_string()));
    assert_eq!(value_to_string(&Value::Int(i64::MIN)), Some("-9223372036854775808".to_string()));
    assert_eq!(value_to_string(&Value::Bool(true)), Some("true".to_string()));
    assert_eq!(value_to_string(&Value::Bool(false)), Some("false".to_string()));
    assert_eq!(value_to_string(&Value::Float(3.0f64.to_bits())), None);
}

#[test]
fn pad_fills_with_spaces_and_keeps_long_text() {
    assert_eq!(pad("ab", 5), "ab   ");
    assert_eq!(pad("abcdef", 3), "abcdef");
    assert_eq!(pad("", 0), "");
}

#[test]
fn summary_line_counts_affected_rows_when_none_returned() {
    let r = QueryResult {
        columns: vec![],
        column_sources: vec![],
        rows: vec![],
        elapsed_ms: 5,
        rows_affected: 3,
    };
    assert_eq!(summary_line(&r, &[]), "3 rows affected in 5ms");
    let r2 = QueryResult { rows_affected: 0, ..r };
    assert_eq!(summary_line(&r2, &[("db".into(), DatabaseKind::Postgres)]), "0 rows in 5ms (Postgres@db)");
}

#[test]
fn value_to_string_handles_all_variants() {
    // Float texts are chosen outside the library; the other kinds are shown here.
    assert_eq!(value_to_string(&Value::Null).as_deref(), Some(""));
    assert_eq!(value_to_string(&Value::String("x".into())).as_deref(), Some("x"));
    assert_eq!(value_to_string(&Value::Int(42)).as_deref(), Some("42"));
    assert_eq!(value_to_string(&Value::Bool(true)).as_deref(), Some("true"));
}

#[test]
fn render_ignores_rows_when_there_are_no_columns() {
    let r = QueryResult {
        columns: vec![],
        column_sources: vec![],
        rows: vec![vec![Value::Int(1)], vec![]],
        elapsed_ms: 0,
        rows_affected: 0,
    };
    assert_eq!(render(&r, &[]), "(no rows)\n");
}
