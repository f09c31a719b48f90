//! River's query-result engine: cell values, expression evaluation, joins,
//! table rendering and the decision logic of file-processor mode.

pub mod ast;
pub mod clock;
pub mod connection;
pub mod csv_export;
pub mod export;
pub mod expr;
pub mod expr_laws;
pub mod expr_spec;
pub mod file_processor;
pub mod float_bits;
pub mod join_laws;
pub mod joins;
pub mod json_export;
pub mod joins_spec;
pub mod render_table;
pub mod text;
pub mod value;
pub mod xlsx_export;
pub mod xml_export;
