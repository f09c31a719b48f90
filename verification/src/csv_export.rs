//! CSV export through the `csv` crate: a header record of the column names,
//! then one record per row. Text cells that a spreadsheet would take for a
//! formula are prefixed with a quote.

use vstd::prelude::*;
use crate::export::{ExportError, Exporter};
use crate::render_table::{cell_text, rows_fit, shown, shows_all};
use crate::value::{QueryResult, ResultView, Val, Value};

verus! {

/// A `csv::Writer` over a byte buffer. Verus refuses a declaration of the
/// generic writer type (its parameter is bound by `std::io::Write`), so the
/// writer is held here, out of Verus's sight.
#[verifier::external_body]
pub struct CsvBuffer {
    writer: csv::Writer<Vec<u8>>,
}

#[verifier::external_type_specification]
#[verifier::external_body]
pub struct ExCsvError(csv::Error);

/// The records a CSV writer over a byte buffer has accepted so far, each a
/// sequence of fields.
pub uninterp spec fn csv_records(w: CsvBuffer) -> Seq<Seq<Seq<char>>>;

/// The bytes `csv::Writer`, with its default settings, produces for the
/// given records: fields separated by commas, each record ended by a
/// newline, a field quoted (with inner quotes doubled) where it holds a
/// comma, a quote or a line break.
pub uninterp spec fn csv_encoding(records: Seq<Seq<Seq<char>>>) -> Seq<u8>;

/// `csv::Writer::from_writer` over an empty `Vec<u8>`: a writer with the
/// default settings that has accepted no record.
#[verifier::external_body]
fn csv_writer() -> (w: CsvBuffer)
    ensures
        csv_records(w) == Seq::<Seq<Seq<char>>>::empty(),
{
    CsvBuffer { writer: csv::Writer::from_writer(Vec::new()) }
}

/// `csv::Writer::write_record`: with the default settings the writer
/// accepts a first record, and afterwards a record with as many fields as
/// the first, after the earlier ones; it refuses any other record with its
/// unequal-lengths error. Writing into a `Vec<u8>` cannot fail otherwise.
/// The writer is handed back on success and dropped with the error.
#[verifier::external_body]
fn csv_write_record(w: CsvBuffer, record: &Vec<String>) -> (r: Result<CsvBuffer, csv::Error>)
    ensures
        r is Ok <==> (csv_records(w).len() == 0 || csv_records(w)[0].len() == record@.len()),
        r is Ok ==> csv_records(r->Ok_0) == csv_records(w).push(record.deep_view()),
{
    let mut w = w;
    match w.writer.write_record(record) {
        Ok(()) => Ok(w),
        Err(e) => Err(e),
    }
}

/// `csv::Writer::into_inner`: flushes the writer and hands back its buffer,
/// which holds the encoding of the accepted records. Flushing into a
/// `Vec<u8>` cannot fail.
#[verifier::external_body]
fn csv_into_bytes(w: CsvBuffer) -> (r: Option<Vec<u8>>)
    ensures
        r is Some,
        r.unwrap()@ == csv_encoding(csv_records(w)),
{
    w.writer.into_inner().ok()
}

/// A character that starts a spreadsheet formula.
pub open spec fn formula_lead(c: char) -> bool {
    c == '=' || c == '+' || c == '-' || c == '@'
}

/// A text as a CSV cell: prefixed with `'` when it starts like a formula.
pub open spec fn sanitized(s: Seq<char>) -> Seq<char> {
    if s.len() > 0 && formula_lead(s[0]) {
        seq!['\''] + s
    } else {
        s
    }
}

/// A cell as CSV shows it: text sanitized, anything else as tables show it.
pub open spec fn csv_cell(v: Val, texts: Seq<(u64, Seq<char>)>) -> Option<Seq<char>> {
    match v {
        Val::Str(s) => Some(sanitized(s)),
        _ => shown(v, texts),
    }
}

/// The CSV record of a row.
pub open spec fn csv_row(row: Seq<Val>, texts: Seq<(u64, Seq<char>)>) -> Seq<Seq<char>> {
    Seq::new(row.len(), |i: int| csv_cell(row[i], texts).unwrap())
}

/// The records of a result: the column names, then each row.
pub open spec fn csv_table(r: ResultView, texts: Seq<(u64, Seq<char>)>) -> Seq<Seq<Seq<char>>> {
    seq![r.columns] + Seq::new(r.rows.len(), |j: int| csv_row(r.rows[j], texts))
}

/// Prefixes a text with `'` when it starts with `=`, `+`, `-` or `@`, so
/// that a spreadsheet does not run it as a formula.
pub fn sanitize_csv_cell(s: &str) -> (r: String)
    ensures
        r@ == sanitized(s@),
{
    if s.unicode_len() > 0 {
        let c = s.get_char(0);
        if c == '=' || c == '+' || c == '-' || c == '@' {
            let mut out = String::from_str("'");
            out.append(s);
            proof {
                reveal_strlit("'");
            }
            assert(out@ =~= seq!['\''] + s@);
            return out;
        }
    }
    String::from_str(s)
}

/// A cell as CSV shows it: text sanitized, anything else as tables show it.
pub fn value_to_csv_cell(val: &Value, float_texts: &[(u64, String)]) -> (r: String)
    requires
        shown(val@, float_texts.deep_view()) is Some,
    ensures
        Some(r@) == csv_cell(val@, float_texts.deep_view()),
{
    match val {
        Value::String(s) => sanitize_csv_cell(s.as_str()),
        _ => cell_text(val, float_texts),
    }
}

/// Exports a result as CSV.
pub struct CsvExporter;

impl Exporter for CsvExporter {
    /// Every cell can be shown.
    open spec fn accepts(&self, result: ResultView, texts: Seq<(u64, Seq<char>)>) -> bool {
        shows_all(result.rows, texts)
    }

    /// The CSV encoding of the header record and the rows' records; the
    /// csv writer's unequal-lengths error when a row does not have one cell
    /// per column.
    fn write(&self, result: &QueryResult, float_texts: &[(u64, String)]) -> (r: Result<Vec<u8>, ExportError>)
        ensures
            r is Ok <==> rows_fit(result@),
            r is Ok ==> r->Ok_0@ == csv_encoding(csv_table(result@, float_texts.deep_view())),
    {
        let ghost rv = result@;
        let ghost fv = float_texts.deep_view();
        let ghost table = csv_table(rv, fv);
        let mut w = match csv_write_record(csv_writer(), &result.columns) {
            Ok(w) => w,
            Err(e) => {
                return Err(ExportError::Csv(e));
            },
        };
        assert(csv_records(w) =~= table.take(1));
        for j in 0..result.rows.len()
            invariant
                rv == result@,
                fv == float_texts.deep_view(),
                table == csv_table(rv, fv),
                forall|k: int| 0 <= k < j ==> (#[trigger] rv.rows[k]).len() == rv.columns.len(),
                shows_all(rv.rows, fv),
                csv_records(w) == table.take(j + 1),
        {
            let row = &result.rows[j];
            assert(rv.rows[j as int] == row.deep_view());
            let mut record: Vec<String> = Vec::new();
            for i in 0..row.len()
                invariant
                    rv == result@,
                    fv == float_texts.deep_view(),
                    shows_all(rv.rows, fv),
                    j < rv.rows.len(),
                    rv.rows[j as int] == row.deep_view(),
                    record.deep_view() == csv_row(rv.rows[j as int], fv).take(i as int),
            {
                assert(rv.rows[j as int][i as int] == row@[i as int]@);
                assert(shown(rv.rows[j as int][i as int], fv) is Some);
                let cell = value_to_csv_cell(&row[i], float_texts);
                let ghost before = record.deep_view();
                let ghost cv = cell@;
                record.push(cell);
                assert(record.deep_view() =~= before.push(cv));
                assert(record.deep_view() =~= csv_row(rv.rows[j as int], fv).take(i + 1));
            }
            assert(record.deep_view() =~= csv_row(rv.rows[j as int], fv));
            assert(table[j + 1] == record.deep_view());
            assert(csv_records(w)[0] == table[0]);
            assert(record@.len() == rv.rows[j as int].len());
            w = match csv_write_record(w, &record) {
                Ok(w2) => w2,
                Err(e) => {
                    assert(!rows_fit(rv));
                    return Err(ExportError::Csv(e));
                },
            };
            assert(csv_records(w) =~= table.take(j + 2));
        }
        assert(table.take(rv.rows.len() as int + 1) =~= table);
        match csv_into_bytes(w) {
            Some(b) => Ok(b),
            None => Ok(Vec::new()),
        }
    }
}

/// A sanitized cell never starts like a formula, and it is the text
/// itself or the text behind one added quote.
pub proof fn lemma_sanitized_is_safe(s: Seq<char>)
    ensures
        !(sanitized(s).len() > 0 && formula_lead(sanitized(s)[0])),
        sanitized(s) == s || sanitized(s) == seq!['\''] + s,
        sanitized(s).len() > 0 && sanitized(s)[0] == '\'' && formula_lead(s[0]) ==> sanitized(s).drop_first() == s,
{
    if s.len() > 0 && formula_lead(s[0]) {
        assert((seq!['\''] + s).drop_first() =~= s);
    }
}

/// Only a text that starts like a formula, with `=`, `+`, `-` or `@`, is
/// changed in a CSV cell, by one quote put in front; any other text, the
/// empty one included, is written as it is.
pub proof fn lemma_sanitized_changes_only_formulas(s: Seq<char>)
    ensures
        s.len() == 0 || (s[0] != '=' && s[0] != '+' && s[0] != '-' && s[0] != '@') ==> sanitized(s) == s,
        s.len() > 0 && (s[0] == '=' || s[0] == '+' || s[0] == '-' || s[0] == '@') ==> sanitized(s).len() == s.len()
            + 1 && sanitized(s)[0] == '\'' && sanitized(s).drop_first() == s,
{
    if s.len() > 0 && formula_lead(s[0]) {
        assert((seq!['\''] + s).drop_first() =~= s);
    }
}

} // verus!
