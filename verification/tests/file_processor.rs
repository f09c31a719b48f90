use river::file_processor::{
    empty_result, export_failure, export_format, is_supported_extension, setup_step, ExitCode, ExportFormat, Script,
    SetupEvent, Step,
};
use river::value::{QueryResult, Value};

fn one_row(n: i64) -> QueryResult {
    QueryResult {
        columns: vec!["n".into()],
        column_sources: vec![None],
        rows: vec![vec![Value::Int(n)]],
        elapsed_ms: 1,
        rows_affected: 0,
    }
}

#[test]
fn exit_codes_are_distinct_numbers() {
    assert_eq!(ExitCode::Success.as_i32(), 0);
    assert_eq!(ExitCode::SetupError.as_i32(), 1);
    assert_eq!(ExitCode::ParseError.as_i32(), 2);
    assert_eq!(ExitCode::ExecutionError.as_i32(), 3);
}

#[test]
fn export_format_accepts_the_five_extensions() {
    assert_eq!(export_format("csv"), Ok(ExportFormat::Csv));
    assert_eq!(export_format("xlsx"), Ok(ExportFormat::Xlsx));
    assert_eq!(export_format("json"), Ok(ExportFormat::Json));
    assert_eq!(export_format("txt"), Ok(ExportFormat::Txt));
    assert_eq!(export_format("xml"), Ok(ExportFormat::Xml));
}

#[test]
fn export_format_rejects_unsupported_extension() {
    let err = export_format("xyz").unwrap_err();
    assert!(err.contains("unsupported export type"));
    assert!(err.contains("csv, xlsx, json, txt, xml"));
    assert_eq!(err, "unsupported export type: xyz; supported: csv, xlsx, json, txt, xml");
    assert!(export_format("CSV").is_err());
    assert!(export_format("").is_err());
}

#[test]
fn supported_extension_check_agrees_with_export_format() {
    for e in ["csv", "xlsx", "json", "txt", "xml", "xyz", "Csv", "c"] {
        assert_eq!(is_supported_extension(Some(e)), export_format(e).is_ok());
    }
    assert!(!is_supported_extension(None));
}

#[test]
fn empty_result_has_nothing() {
    let r = empty_result();
    assert!(r.columns.is_empty() && r.column_sources.is_empty() && r.rows.is_empty());
    assert_eq!((r.elapsed_ms, r.rows_affected), (0, 0));
}

#[test]
fn last_result_is_kept_for_export_and_others_shown() {
    let mut s = Script::new(false, true, 3);
    assert!(s.has_next());
    assert!(s.on_result(one_row(1)).is_some());
    s.on_param("p".to_string(), None);
    assert!(s.has_next());
    assert!(s.on_result(one_row(3)).is_none());
    assert!(!s.has_next());
    let out = s.finish().unwrap();
    assert!(matches!(out.rows[0][0], Value::Int(3)));
}

#[test]
fn silent_script_shows_nothing() {
    let mut s = Script::new(true, false, 2);
    assert!(s.on_result(one_row(1)).is_none());
    assert!(s.on_result(one_row(2)).is_none());
    assert!(s.finish().is_none());
}

#[test]
fn export_without_a_final_result_is_empty() {
    let mut s = Script::new(false, true, 2);
    assert!(s.on_result(one_row(1)).is_some());
    s.on_param("p".to_string(), None);
    let out = s.finish().unwrap();
    assert!(out.columns.is_empty() && out.rows.is_empty());
}

#[test]
fn empty_script_hint_only_when_interactive() {
    assert!(Script::new(false, false, 0).hints_empty());
    assert!(!Script::new(true, false, 0).hints_empty());
    assert!(!Script::new(false, true, 0).hints_empty());
    assert!(!Script::new(false, false, 1).hints_empty());
}

#[test]
fn failure_message_counts_from_one() {
    let mut s = Script::new(false, false, 3);
    s.on_param("p".to_string(), None);
    let (message, code) = s.on_failure("boom");
    assert_eq!(message, "statement 2: boom");
    assert_eq!(code.as_i32(), 3);
}

fn stop(step: Step) -> (Option<String>, i32) {
    match step {
        Step::Stop { message, code } => (message, code.as_i32()),
        Step::Go => panic!("expected the script to stop"),
    }
}

#[test]
fn missing_or_unreadable_input_is_a_setup_error() {
    assert_eq!(
        stop(setup_step("a.rql", false, false, SetupEvent::Missing)),
        (Some("no input file: a.rql".to_string()), 1)
    );
    assert_eq!(
        stop(setup_step("a.rql", true, true, SetupEvent::ReadFailed("denied".into()))),
        (Some("failed to read a.rql: denied".to_string()), 1)
    );
}

#[test]
fn export_target_is_checked_before_parsing() {
    assert!(matches!(setup_step("a.rql", false, true, SetupEvent::Read(Some("csv".into()))), Step::Go));
    assert_eq!(
        stop(setup_step("a.rql", false, true, SetupEvent::Read(Some("pdf".into())))),
        (Some("unsupported export type: pdf; supported: csv, xlsx, json, txt, xml".to_string()), 1)
    );
    assert_eq!(
        stop(setup_step("a.rql", false, true, SetupEvent::Read(None))),
        (Some("unsupported export type: ; supported: csv, xlsx, json, txt, xml".to_string()), 1)
    );
    assert!(matches!(setup_step("a.rql", false, false, SetupEvent::Read(Some("pdf".into()))), Step::Go));
}

#[test]
fn parse_error_exits_with_two() {
    assert_eq!(
        stop(setup_step("s.rql", false, false, SetupEvent::ParseFailed("line 1: oops".into()))),
        (Some("s.rql: line 1: oops".to_string()), 2)
    );
}

#[test]
fn empty_script_exits_cleanly_with_a_hint_when_interactive() {
    assert_eq!(
        stop(setup_step("s.rql", false, false, SetupEvent::Parsed(0))),
        (Some("no statements".to_string()), 0)
    );
    assert_eq!(stop(setup_step("s.rql", true, false, SetupEvent::Parsed(0))), (None, 0));
    assert_eq!(stop(setup_step("s.rql", false, true, SetupEvent::Parsed(0))), (None, 0));
    assert!(matches!(setup_step("s.rql", false, false, SetupEvent::Parsed(2)), Step::Go));
}

#[test]
fn export_failure_is_a_setup_error() {
    let (message, code) = export_failure("out.csv", "disk full");
    assert_eq!(message, "cannot write out.csv: disk full");
    assert_eq!(code.as_i32(), 1);
}

#[test]
fn parameters_are_kept_and_a_later_one_wins() {
    let mut s = Script::new(false, false, 4);
    assert!(!s.has_params());
    s.on_param("a".into(), None);
    assert!(!s.has_params());
    s.on_param("a".into(), Some(Value::Int(1)));
    s.on_param("a".into(), Some(Value::Int(2)));
    assert!(s.has_params());
    let entries = s.param_entries();
    let last = entries.iter().rev().find(|(n, _)| n == "a").unwrap();
    assert!(matches!(last.1, Value::Int(2)));
    assert!(s.has_next());
    assert!(s.on_result(one_row(5)).is_some());
    assert!(!s.has_next());
}
