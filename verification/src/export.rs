//! Exporters: each turns a query result into the bytes of one file format.
//! Writing those bytes to a file is left to the caller.

use vstd::prelude::*;
use vstd::utf8::encode_utf8;
use crate::render_table::{render, renderable, table_text, text_table};
use crate::value::{QueryResult, ResultView};

verus! {

/// A sink that serializes a [`QueryResult`] to bytes. Float cells are shown
/// by their texts in `float_texts`, keyed by bit pattern.
pub trait Exporter {
    /// The results this exporter can write: those on which the format's
    /// writer does not fail.
    spec fn accepts(&self, result: ResultView, texts: Seq<(u64, Seq<char>)>) -> bool;

    /// The bytes of `result` in this exporter's format, or the format
    /// writer's error.
    fn write(&self, result: &QueryResult, float_texts: &[(u64, String)]) -> (r: Result<Vec<u8>, ExportError>)
        requires
            self.accepts(result@, float_texts.deep_view()),
    ;
}

/// Why an export failed.
#[derive(Debug)]
pub enum ExportError {
    /// The csv writer refused a record.
    Csv(csv::Error),
}

/// Exports a result as the text table that is shown on a terminal.
pub struct TxtExporter;

impl Exporter for TxtExporter {
    open spec fn accepts(&self, result: ResultView, texts: Seq<(u64, Seq<char>)>) -> bool {
        renderable(result, texts)
    }

    /// The UTF-8 bytes of the rendered table.
    fn write(&self, result: &QueryResult, float_texts: &[(u64, String)]) -> (r: Result<Vec<u8>, ExportError>)
        ensures
            r is Ok,
            r->Ok_0@ == encode_utf8(table_text(result@.columns, text_table(result@.rows, float_texts.deep_view()))),
    {
        let text = render(result, float_texts);
        Ok(text.as_str().as_bytes_vec())
    }
}

} // verus!
