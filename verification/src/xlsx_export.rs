//! The layout of an XLSX export: which worksheet cell receives what. The
//! header row holds the column names in bold; each row of the result
//! follows on its own sheet row, its cells typed as numbers, booleans or
//! strings, and `Null` cells left blank. Writing the workbook (numbers are
//! written as floats) is left to the caller.

use vstd::prelude::*;
use crate::float_bits::{int_as_float, int_as_float_exec};
use crate::value::{QueryResult, ResultView, Val, Value};

verus! {

/// What a worksheet cell receives.
pub enum SheetContent {
    /// A column name, written bold.
    Header(String),
    /// A number, by the bits of its binary64 encoding.
    Number(u64),
    Boolean(bool),
    Text(String),
}

/// One worksheet cell to write.
pub struct SheetCell {
    pub row: u32,
    pub col: u16,
    pub content: SheetContent,
}

/// The content of a [`SheetContent`].
pub ghost enum ContentView {
    Header(Seq<char>),
    Number(u64),
    Boolean(bool),
    Text(Seq<char>),
}

/// The content of a [`SheetCell`].
pub ghost struct CellView {
    pub row: u32,
    pub col: u16,
    pub content: ContentView,
}

impl View for SheetCell {
    type V = CellView;

    open spec fn view(&self) -> CellView {
        CellView {
            row: self.row,
            col: self.col,
            content: match self.content {
                SheetContent::Header(s) => ContentView::Header(s@),
                SheetContent::Number(b) => ContentView::Number(b),
                SheetContent::Boolean(b) => ContentView::Boolean(b),
                SheetContent::Text(s) => ContentView::Text(s@),
            },
        }
    }
}

/// The cells written for one value at sheet row `r`, column `c`: none for
/// `Null`, an integer as the float nearest it.
pub open spec fn value_cells(r: int, c: int, v: Val) -> Seq<CellView> {
    let at = |content: ContentView| CellView { row: r as u32, col: c as u16, content: content };
    match v {
        Val::Null => Seq::empty(),
        Val::Int(n) => seq![at(ContentView::Number(int_as_float(n)))],
        Val::Float(b) => seq![at(ContentView::Number(b))],
        Val::Bool(b) => seq![at(ContentView::Boolean(b))],
        Val::Str(s) => seq![at(ContentView::Text(s))],
    }
}

/// The cells written for the first `n` values of result row `j`, which
/// goes on sheet row `j + 1`.
pub open spec fn row_cells(j: int, row: Seq<Val>, n: int) -> Seq<CellView> {
    Seq::new(n as nat, |c: int| value_cells(j + 1, c, row[c])).flatten()
}

/// The header cells of the first `n` columns, on sheet row 0.
pub open spec fn header_cells(columns: Seq<Seq<char>>, n: int) -> Seq<CellView> {
    Seq::new(
        n as nat,
        |c: int| CellView { row: 0, col: c as u16, content: ContentView::Header(columns[c]) },
    )
}

/// The cells written for the first `n` rows.
pub open spec fn body_cells(rows: Seq<Seq<Val>>, n: int) -> Seq<CellView> {
    Seq::new(n as nat, |j: int| row_cells(j, rows[j], rows[j].len() as int)).flatten()
}

/// Every cell written for a result, in writing order: the header, then the
/// rows.
pub open spec fn sheet_layout(r: ResultView) -> Seq<CellView> {
    header_cells(r.columns, r.columns.len() as int) + body_cells(r.rows, r.rows.len() as int)
}

/// The views of a list of cells.
pub open spec fn cells_view(cells: Seq<SheetCell>) -> Seq<CellView> {
    Seq::new(cells.len(), |i: int| cells[i]@)
}

/// Appends the cells of one value.
fn push_value_cells(out: &mut Vec<SheetCell>, r: usize, c: usize, v: &Value)
    ensures
        cells_view(final(out)@) == cells_view(old(out)@) + value_cells(r as int, c as int, v@),
{
    let row = r as u32;
    let col = c as u16;
    let content = match v {
        Value::Null => {
            assert(cells_view(out@) =~= cells_view(old(out)@) + value_cells(r as int, c as int, v@));
            return;
        },
        Value::Int(n) => SheetContent::Number(int_as_float_exec(*n)),
        Value::Float(b) => SheetContent::Number(*b),
        Value::Bool(b) => SheetContent::Boolean(*b),
        Value::String(s) => SheetContent::Text(s.clone()),
    };
    out.push(SheetCell { row, col, content });
    assert(cells_view(out@) =~= cells_view(old(out)@) + value_cells(r as int, c as int, v@));
}

/// The cells an XLSX export writes for a result, in writing order: the
/// column names in bold on sheet row 0, then each result row `j` on sheet
/// row `j + 1` (row numbers cut to 32 bits, columns to 16), skipping
/// `Null` cells.
pub fn sheet_cells(result: &QueryResult) -> (r: Vec<SheetCell>)
    ensures
        cells_view(r@) == sheet_layout(result@),
{
    let ghost rv = result@;
    let mut out: Vec<SheetCell> = Vec::new();
    for c in 0..result.columns.len()
        invariant
            rv == result@,
            cells_view(out@) == header_cells(rv.columns, c as int),
    {
        let name = result.columns[c].clone();
        assert(rv.columns[c as int] == name@);
        let ghost before = cells_view(out@);
        let cell = SheetCell { row: 0, col: c as u16, content: SheetContent::Header(name) };
        assert(cell@ == CellView { row: 0, col: c as u16, content: ContentView::Header(rv.columns[c as int]) });
        out.push(cell);
        assert(cells_view(out@) =~= before.push(cell@));
        assert(header_cells(rv.columns, c + 1)[c as int] == cell@);
        assert(cells_view(out@) =~= header_cells(rv.columns, c + 1));
    }
    let ghost head = cells_view(out@);
    assert(body_cells(rv.rows, 0) =~= Seq::<CellView>::empty());
    for j in 0..result.rows.len()
        invariant
            rv == result@,
            head == header_cells(rv.columns, rv.columns.len() as int),
            cells_view(out@) == head + body_cells(rv.rows, j as int),
    {
        let row = &result.rows[j];
        assert(rv.rows[j as int] == row.deep_view());
        let ghost start = cells_view(out@);
        assert(row_cells(j as int, rv.rows[j as int], 0) =~= Seq::<CellView>::empty());
        for c in 0..row.len()
            invariant
                rv == result@,
                j < rv.rows.len(),
                rv.rows[j as int] == row.deep_view(),
                j < result.rows.len(),
                cells_view(out@) == start + row_cells(j as int, rv.rows[j as int], c as int),
        {
            assert(rv.rows[j as int][c as int] == row@[c as int]@);
            push_value_cells(&mut out, j + 1, c, &row[c]);
            proof {
                let pieces = Seq::new(c as nat, |k: int| value_cells(j + 1, k, rv.rows[j as int][k]));
                let one = value_cells(j + 1, c as int, rv.rows[j as int][c as int]);
                assert(Seq::new((c + 1) as nat, |k: int| value_cells(j + 1, k, rv.rows[j as int][k])) =~= pieces.push(one));
                pieces.lemma_flatten_push(one);
            }
        }
        proof {
            let pieces = Seq::new(j as nat, |k: int| row_cells(k, rv.rows[k], rv.rows[k].len() as int));
            let one = row_cells(j as int, rv.rows[j as int], rv.rows[j as int].len() as int);
            assert(Seq::new((j + 1) as nat, |k: int| row_cells(k, rv.rows[k], rv.rows[k].len() as int)) =~= pieces.push(one));
            pieces.lemma_flatten_push(one);
        }
    }
    out
}

/// The number of values among the first `n` of a row that are not `Null`.
pub open spec fn non_null_count(row: Seq<Val>, n: int) -> nat
    decreases n,
{
    if n <= 0 {
        0
    } else {
        non_null_count(row, n - 1) + if row[n - 1] is Null {
            0nat
        } else {
            1nat
        }
    }
}

/// The number of values of the first `n` rows that are not `Null`.
pub open spec fn body_count(rows: Seq<Seq<Val>>, n: int) -> nat
    decreases n,
{
    if n <= 0 {
        0
    } else {
        body_count(rows, n - 1) + non_null_count(rows[n - 1], rows[n - 1].len() as int)
    }
}

/// The sheet cell that a value at sheet row `r`, column `c` is written to,
/// by its kind: a float as its number, an integer as the float nearest it,
/// a boolean as a boolean and a text as a text.
pub open spec fn written_as(v: Val, cell: CellView, r: int, c: int) -> bool {
    &&& cell.row == r as u32
    &&& cell.col == c as u16
    &&& match v {
        Val::Float(b) => cell.content == ContentView::Number(b),
        Val::Int(n) => cell.content == ContentView::Number(int_as_float(n)),
        Val::Bool(b) => cell.content == ContentView::Boolean(b),
        Val::Str(t) => cell.content == ContentView::Text(t),
        Val::Null => false,
    }
}

/// A row is laid out one cell per value that is not `Null`, each at its own
/// column of sheet row `j + 1`, holding the value by its kind.
pub proof fn lemma_row_cells_one_per_value(j: int, row: Seq<Val>, n: int)
    requires
        0 <= n <= row.len(),
    ensures
        row_cells(j, row, n).len() == non_null_count(row, n),
        forall|c: int|
            0 <= c < n && !(row[c] is Null) ==> exists|t: int|
                0 <= t < row_cells(j, row, n).len() && written_as(row[c], #[trigger] row_cells(j, row, n)[t], j + 1, c),
    decreases n,
{
    if n > 0 {
        lemma_row_cells_one_per_value(j, row, n - 1);
        let pieces = Seq::new((n - 1) as nat, |k: int| value_cells(j + 1, k, row[k]));
        let one = value_cells(j + 1, n - 1, row[n - 1]);
        assert(Seq::new(n as nat, |k: int| value_cells(j + 1, k, row[k])) =~= pieces.push(one));
        pieces.lemma_flatten_push(one);
        let before = row_cells(j, row, n - 1);
        let all = row_cells(j, row, n);
        assert(all == before + one);
        assert forall|c: int| 0 <= c < n && !(row[c] is Null) implies exists|t: int|
            0 <= t < all.len() && written_as(row[c], #[trigger] all[t], j + 1, c) by {
            if c < n - 1 {
                let t = choose|t: int| 0 <= t < before.len() && written_as(row[c], #[trigger] before[t], j + 1, c);
                assert(all[t] == before[t]);
            } else {
                assert(all[before.len() as int] == one[0]);
            }
        }
    }
}

/// The cells of the first `n` rows: one per value that is not `Null`, each
/// on the sheet row after its result row, at its column, holding the value
/// by its kind.
proof fn lemma_body_cells_one_per_value(rows: Seq<Seq<Val>>, n: int)
    requires
        0 <= n <= rows.len(),
    ensures
        body_cells(rows, n).len() == body_count(rows, n),
        forall|j: int, c: int|
            0 <= j < n && 0 <= c < rows[j].len() && !(rows[j][c] is Null) ==> exists|t: int|
                0 <= t < body_cells(rows, n).len() && written_as(rows[j][c], #[trigger] body_cells(rows, n)[t], j + 1, c),
    decreases n,
{
    if n > 0 {
        lemma_body_cells_one_per_value(rows, n - 1);
        lemma_row_cells_one_per_value(n - 1, rows[n - 1], rows[n - 1].len() as int);
        let pieces = Seq::new((n - 1) as nat, |k: int| row_cells(k, rows[k], rows[k].len() as int));
        let one = row_cells(n - 1, rows[n - 1], rows[n - 1].len() as int);
        assert(Seq::new(n as nat, |k: int| row_cells(k, rows[k], rows[k].len() as int)) =~= pieces.push(one));
        pieces.lemma_flatten_push(one);
        let before = body_cells(rows, n - 1);
        let all = body_cells(rows, n);
        assert(all == before + one);
        assert forall|j: int, c: int| 0 <= j < n && 0 <= c < rows[j].len() && !(rows[j][c] is Null) implies exists|t: int|
            0 <= t < all.len() && written_as(rows[j][c], #[trigger] all[t], j + 1, c) by {
            if j < n - 1 {
                let t = choose|t: int| 0 <= t < before.len() && written_as(rows[j][c], #[trigger] before[t], j + 1, c);
                assert(all[t] == before[t]);
            } else {
                let t = choose|t: int| 0 <= t < one.len() && written_as(rows[j][c], #[trigger] one[t], j + 1, c);
                assert(all[before.len() + t] == one[t]);
            }
        }
    }
}

/// An XLSX export writes one header cell per column and one cell per value
/// that is not `Null`, nothing more; every such value is written on the
/// sheet row after its result row, at its column, by its kind (a float as
/// its number).
pub proof fn lemma_sheet_has_a_cell_per_value(r: ResultView)
    ensures
        sheet_layout(r).len() == r.columns.len() + body_count(r.rows, r.rows.len() as int),
        forall|j: int, c: int|
            0 <= j < r.rows.len() && 0 <= c < r.rows[j].len() && !(r.rows[j][c] is Null) ==> exists|t: int|
                0 <= t < sheet_layout(r).len() && written_as(r.rows[j][c], #[trigger] sheet_layout(r)[t], j + 1, c),
{
    lemma_body_cells_one_per_value(r.rows, r.rows.len() as int);
    let head = header_cells(r.columns, r.columns.len() as int);
    let body = body_cells(r.rows, r.rows.len() as int);
    assert forall|j: int, c: int|
        0 <= j < r.rows.len() && 0 <= c < r.rows[j].len() && !(r.rows[j][c] is Null) implies exists|t: int|
            0 <= t < sheet_layout(r).len() && written_as(r.rows[j][c], #[trigger] sheet_layout(r)[t], j + 1, c) by {
        let t = choose|t: int| 0 <= t < body.len() && written_as(r.rows[j][c], #[trigger] body[t], j + 1, c);
        assert(sheet_layout(r)[head.len() + t] == body[t]);
    }
}

} // verus!
