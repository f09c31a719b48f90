//! Plain-text rendering of query results: a fixed-width table with `|`
//! column separators and a `-` divider row, and a one-line summary.
//!
//! The decimal text of a floating-point cell is chosen outside the library;
//! the functions that show cells take those texts, keyed by the cell's bit
//! pattern.

use vstd::prelude::*;
use crate::expr_spec::{bool_text, value_text};
use crate::text::{decimal, i64_to_string, push_char, push_decimal, u128_to_string};
use crate::value::{QueryResult, ResultView, Val, Value};
use crate::connection::{DatabaseKind, kind_name};

verus! {

/// The text chosen for a float with bit pattern `bits`: the first entry
/// with those bits.
pub open spec fn float_text(texts: Seq<(u64, Seq<char>)>, bits: u64) -> Option<Seq<char>>
    decreases texts.len(),
{
    if texts.len() == 0 {
        None
    } else if texts[0].0 == bits {
        Some(texts[0].1)
    } else {
        float_text(texts.drop_first(), bits)
    }
}

/// How a cell is shown: `Null` as the empty text, booleans as `true` and
/// `false`, integers in decimal, floats by their chosen text.
pub open spec fn shown(v: Val, texts: Seq<(u64, Seq<char>)>) -> Option<Seq<char>> {
    match v {
        Val::Float(b) => float_text(texts, b),
        _ => value_text(v),
    }
}

/// Every cell of every row can be shown.
pub open spec fn shows_all(rows: Seq<Seq<Val>>, texts: Seq<(u64, Seq<char>)>) -> bool {
    forall|j: int, i: int|
        0 <= j < rows.len() && 0 <= i < rows[j].len() ==> (#[trigger] shown(rows[j][i], texts)) is Some
}

/// The shown texts of a row.
pub open spec fn row_texts(row: Seq<Val>, texts: Seq<(u64, Seq<char>)>) -> Seq<Seq<char>> {
    Seq::new(row.len(), |i: int| shown(row[i], texts).unwrap())
}

/// The shown texts of every row.
pub open spec fn text_table(rows: Seq<Seq<Val>>, texts: Seq<(u64, Seq<char>)>) -> Seq<Seq<Seq<char>>> {
    Seq::new(rows.len(), |j: int| row_texts(rows[j], texts))
}

/// The length of the longest text in column `i` among the first `n` rows.
pub open spec fn tallest(cells: Seq<Seq<Seq<char>>>, i: int, n: int) -> nat
    decreases n,
{
    if n <= 0 {
        0
    } else {
        let before = tallest(cells, i, n - 1);
        let here = cells[n - 1][i].len();
        if here > before {
            here
        } else {
            before
        }
    }
}

/// The width of column `i`: its widest member, header or cell.
pub open spec fn col_width(columns: Seq<Seq<char>>, cells: Seq<Seq<Seq<char>>>, i: int) -> nat {
    let t = tallest(cells, i, cells.len() as int);
    if columns[i].len() > t {
        columns[i].len()
    } else {
        t
    }
}

/// The widths of all columns.
pub open spec fn col_widths(columns: Seq<Seq<char>>, cells: Seq<Seq<Seq<char>>>) -> Seq<nat> {
    Seq::new(columns.len(), |i: int| col_width(columns, cells, i))
}

/// `n` copies of a character.
pub open spec fn repeated(c: char, n: nat) -> Seq<char> {
    Seq::new(n, |k: int| c)
}

/// A text padded with spaces on the right to `width` characters; a longer
/// text is kept whole.
pub open spec fn padded(s: Seq<char>, width: nat) -> Seq<char> {
    if s.len() >= width {
        s
    } else {
        s + repeated(' ', (width - s.len()) as nat)
    }
}

/// One cell of a line: a space, the padded text, a space and a bar.
pub open spec fn segment(s: Seq<char>, width: nat) -> Seq<char> {
    seq![' '] + padded(s, width) + seq![' ', '|']
}

/// The segments of the first `n` cells of a line.
pub open spec fn segments(texts: Seq<Seq<char>>, widths: Seq<nat>, n: int) -> Seq<Seq<char>> {
    Seq::new(n as nat, |i: int| segment(texts[i], widths[i]))
}

/// One line of the table: a bar, then each cell's segment, then a newline.
pub open spec fn line_of(texts: Seq<Seq<char>>, widths: Seq<nat>) -> Seq<char> {
    seq!['|'] + segments(texts, widths, widths.len() as int).flatten() + seq!['\n']
}

/// The divider cells: a run of dashes as wide as each column.
pub open spec fn divider(widths: Seq<nat>) -> Seq<Seq<char>> {
    Seq::new(widths.len(), |i: int| repeated('-', widths[i]))
}

/// The lines of a table: the header, the divider, then one line per row.
pub open spec fn table_lines(columns: Seq<Seq<char>>, cells: Seq<Seq<Seq<char>>>) -> Seq<Seq<char>> {
    let widths = col_widths(columns, cells);
    seq![line_of(columns, widths), line_of(divider(widths), widths)] + Seq::new(
        cells.len(),
        |j: int| line_of(cells[j], widths),
    )
}

/// The text of a table; a table without columns is `(no rows)`.
pub open spec fn table_text(columns: Seq<Seq<char>>, cells: Seq<Seq<Seq<char>>>) -> Seq<char> {
    if columns.len() == 0 {
        "(no rows)\n"@
    } else {
        table_lines(columns, cells).flatten()
    }
}

/// Each row has one cell per column.
pub open spec fn rows_fit(result: ResultView) -> bool {
    forall|j: int| 0 <= j < result.rows.len() ==> (#[trigger] result.rows[j]).len() == result.columns.len()
}

/// A result can be rendered: it has no columns (its rows are then not
/// read), or each row has one cell per column and every cell can be shown.
pub open spec fn renderable(result: ResultView, texts: Seq<(u64, Seq<char>)>) -> bool {
    result.columns.len() == 0 || (rows_fit(result) && shows_all(result.rows, texts))
}

/// `true` or `false`.
fn bool_to_string(b: bool) -> (r: String)
    ensures
        r@ == bool_text(b),
{
    if b {
        String::from_str("true")
    } else {
        String::from_str("false")
    }
}

/// The text of a cell as tables, CSV, TXT and XML show it: `Null` as the
/// empty text, booleans as `true`/`false`, integers in decimal; `None` for
/// a float, whose decimal text is chosen outside the library.
pub fn value_to_string(val: &Value) -> (r: Option<String>)
    ensures
        match r {
            Some(s) => value_text(val@) == Some(s@),
            None => value_text(val@) is None,
        },
        r is None <==> val@ is Float,
{
    match val {
        Value::Null => Some(String::new()),
        Value::String(s) => Some(s.clone()),
        Value::Int(n) => Some(i64_to_string(*n)),
        Value::Float(_) => None,
        Value::Bool(b) => Some(bool_to_string(*b)),
    }
}

/// The text chosen for a float's bits, if any.
fn find_float_text(texts: &[(u64, String)], bits: u64) -> (r: Option<String>)
    ensures
        match r {
            Some(s) => float_text(texts.deep_view(), bits) == Some(s@),
            None => float_text(texts.deep_view(), bits) is None,
        },
{
    let ghost tv = texts.deep_view();
    let mut k: usize = 0;
    assert(tv.subrange(0, tv.len() as int) =~= tv);
    while k < texts.len()
        invariant
            tv == texts.deep_view(),
            k <= tv.len(),
            float_text(tv, bits) == float_text(tv.subrange(k as int, tv.len() as int), bits),
        decreases tv.len() - k,
    {
        let ghost rest = tv.subrange(k as int, tv.len() as int);
        assert(rest[0] == tv[k as int]);
        assert(rest.drop_first() =~= tv.subrange(k + 1, tv.len() as int));
        if texts[k].0 == bits {
            return Some(texts[k].1.clone());
        }
        k = k + 1;
    }
    assert(tv.subrange(k as int, tv.len() as int).len() == 0);
    None
}

/// The shown text of a cell.
pub fn cell_text(val: &Value, texts: &[(u64, String)]) -> (r: String)
    requires
        shown(val@, texts.deep_view()) is Some,
    ensures
        Some(r@) == shown(val@, texts.deep_view()),
{
    match val {
        Value::Float(b) => match find_float_text(texts, *b) {
            Some(t) => t,
            None => String::new(),
        },
        _ => match value_to_string(val) {
            Some(t) => t,
            None => String::new(),
        },
    }
}

/// Pads `s` with spaces on the right to `width` characters.
pub fn pad(s: &str, width: usize) -> (r: String)
    ensures
        r@ == padded(s@, width as nat),
{
    let len = s.unicode_len();
    let mut out = String::from_str(s);
    if len < width {
        let mut k: usize = len;
        while k < width
            invariant
                len == s@.len(),
                len <= k <= width,
                out@ == s@ + repeated(' ', (k - len) as nat),
            decreases width - k,
        {
            push_char(&mut out, ' ');
            k = k + 1;
            assert(out@ =~= s@ + repeated(' ', (k - len) as nat));
        }
    }
    assert(out@ =~= padded(s@, width as nat));
    out
}

/// A run of `n` copies of `c`.
fn repeat_char(c: char, n: usize) -> (r: String)
    ensures
        r@ == repeated(c, n as nat),
{
    let mut out = String::new();
    let mut k: usize = 0;
    while k < n
        invariant
            k <= n,
            out@ == repeated(c, k as nat),
        decreases n - k,
    {
        push_char(&mut out, c);
        k = k + 1;
        assert(out@ =~= repeated(c, k as nat));
    }
    out
}

/// Appends one line of the table: the given texts, each padded to its
/// column's width.
fn push_line(out: &mut String, texts: &Vec<String>, widths: &Vec<usize>, Ghost(ws): Ghost<Seq<nat>>)
    requires
        texts@.len() == widths@.len(),
        ws.len() == widths@.len(),
        forall|i: int| 0 <= i < ws.len() ==> ws[i] == widths@[i] as nat,
    ensures
        final(out)@ == old(out)@ + line_of(texts.deep_view(), ws),
{
    let ghost start = out@;
    let ghost tv = texts.deep_view();
    push_char(out, '|');
    assert(segments(tv, ws, 0).flatten() =~= Seq::<char>::empty());
    assert(out@ =~= start + seq!['|'] + segments(tv, ws, 0).flatten());
    for i in 0..widths.len()
        invariant
            tv == texts.deep_view(),
            texts@.len() == widths@.len(),
            ws.len() == widths@.len(),
            forall|k: int| 0 <= k < ws.len() ==> ws[k] == widths@[k] as nat,
            out@ == start + seq!['|'] + segments(tv, ws, i as int).flatten(),
    {
        let ghost before = out@;
        assert(tv[i as int] == texts@[i as int]@);
        push_char(out, ' ');
        let p = pad(texts[i].as_str(), widths[i]);
        out.append(p.as_str());
        out.append(" |");
        proof {
            assert(" |"@ =~= seq![' ', '|']) by {
                reveal_strlit(" |");
            }
            assert(segments(tv, ws, i + 1) =~= segments(tv, ws, i as int).push(segment(tv[i as int], ws[i as int])));
            segments(tv, ws, i as int).lemma_flatten_push(segment(tv[i as int], ws[i as int]));
        }
        assert(out@ =~= start + seq!['|'] + segments(tv, ws, i + 1).flatten());
    }
    push_char(out, '\n');
    assert(out@ =~= start + line_of(tv, ws));
}

/// The shown texts of every cell.
fn table_cells(rows: &Vec<Vec<Value>>, texts: &[(u64, String)]) -> (r: Vec<Vec<String>>)
    requires
        shows_all(rows.deep_view(), texts.deep_view()),
    ensures
        r.deep_view() == text_table(rows.deep_view(), texts.deep_view()),
{
    let ghost rv = rows.deep_view();
    let ghost fv = texts.deep_view();
    let mut out: Vec<Vec<String>> = Vec::new();
    for j in 0..rows.len()
        invariant
            rv == rows.deep_view(),
            fv == texts.deep_view(),
            shows_all(rv, fv),
            out.deep_view() == text_table(rv, fv).take(j as int),
    {
        let row = &rows[j];
        assert(rv[j as int] == row.deep_view());
        let mut line: Vec<String> = Vec::new();
        for i in 0..row.len()
            invariant
                rv == rows.deep_view(),
                fv == texts.deep_view(),
                shows_all(rv, fv),
                j < rv.len(),
                rv[j as int] == row.deep_view(),
                line.deep_view() == row_texts(rv[j as int], fv).take(i as int),
        {
            assert(rv[j as int][i as int] == row@[i as int]@);
            assert(shown(rv[j as int][i as int], fv) is Some);
            let t = cell_text(&row[i], texts);
            let ghost before = line.deep_view();
            let ghost tview = t@;
            line.push(t);
            assert(line.deep_view() =~= before.push(tview));
            assert(line.deep_view() =~= row_texts(rv[j as int], fv).take(i + 1));
        }
        assert(line.deep_view() =~= row_texts(rv[j as int], fv));
        let ghost before = out.deep_view();
        let ghost lview = line.deep_view();
        out.push(line);
        assert(out.deep_view() =~= before.push(lview));
        assert(out.deep_view() =~= text_table(rv, fv).take(j + 1));
    }
    assert(out.deep_view() =~= text_table(rv, fv));
    out
}

/// The width of every column: its widest member, header or cell.
fn column_widths(columns: &Vec<String>, cells: &Vec<Vec<String>>) -> (r: Vec<usize>)
    requires
        forall|j: int| 0 <= j < cells@.len() ==> (#[trigger] cells@[j])@.len() == columns@.len(),
    ensures
        r@.len() == columns@.len(),
        forall|i: int| 0 <= i < columns@.len() ==> r@[i] as nat == col_width(columns.deep_view(), cells.deep_view(), i),
{
    let ghost cv = columns.deep_view();
    let ghost tv = cells.deep_view();
    let mut widths: Vec<usize> = Vec::new();
    for i in 0..columns.len()
        invariant
            cv == columns.deep_view(),
            tv == cells.deep_view(),
            forall|j: int| 0 <= j < cells@.len() ==> (#[trigger] cells@[j])@.len() == columns@.len(),
            widths@.len() == i,
            forall|k: int| 0 <= k < i ==> widths@[k] as nat == col_width(cv, tv, k),
    {
        let mut tall: usize = 0;
        for j in 0..cells.len()
            invariant
                cv == columns.deep_view(),
                tv == cells.deep_view(),
                i < columns@.len(),
                forall|m: int| 0 <= m < cells@.len() ==> (#[trigger] cells@[m])@.len() == columns@.len(),
                tall as nat == tallest(tv, i as int, j as int),
        {
            assert(tv[j as int][i as int] == cells@[j as int]@[i as int]@);
            let here = cells[j][i].as_str().unicode_len();
            if here > tall {
                tall = here;
            }
        }
        let head = columns[i].as_str().unicode_len();
        assert(cv[i as int] == columns@[i as int]@);
        let w = if head > tall {
            head
        } else {
            tall
        };
        widths.push(w);
    }
    widths
}

/// The divider texts: a run of dashes per column.
fn divider_texts(widths: &Vec<usize>, Ghost(ws): Ghost<Seq<nat>>) -> (r: Vec<String>)
    requires
        ws.len() == widths@.len(),
        forall|i: int| 0 <= i < ws.len() ==> ws[i] == widths@[i] as nat,
    ensures
        r@.len() == widths@.len(),
        r.deep_view() == divider(ws),
{
    let mut out: Vec<String> = Vec::new();
    for i in 0..widths.len()
        invariant
            ws.len() == widths@.len(),
            forall|k: int| 0 <= k < ws.len() ==> ws[k] == widths@[k] as nat,
            out.deep_view() == divider(ws).take(i as int),
    {
        let d = repeat_char('-', widths[i]);
        let ghost before = out.deep_view();
        let ghost dview = d@;
        out.push(d);
        assert(out.deep_view() =~= before.push(dview));
        assert(out.deep_view() =~= divider(ws).take(i + 1));
    }
    assert(out.deep_view() =~= divider(ws));
    out
}

/// Renders a result as a fixed-width table: a header line, a divider of
/// dashes and one line per row, every cell padded to its column's widest
/// member; a result without columns renders as `(no rows)`. Float cells
/// are shown by their texts in `float_texts`.
pub fn render(result: &QueryResult, float_texts: &[(u64, String)]) -> (r: String)
    requires
        renderable(result@, float_texts.deep_view()),
    ensures
        r@ == table_text(result@.columns, text_table(result@.rows, float_texts.deep_view())),
{
    if result.columns.len() == 0 {
        return String::from_str("(no rows)\n");
    }
    let ghost cv = result.columns.deep_view();
    let cells = table_cells(&result.rows, float_texts);
    let ghost tv = cells.deep_view();
    assert(tv.len() == cells@.len());
    assert(tv.len() == result@.rows.len());
    assert forall|j: int| 0 <= j < cells@.len() implies (#[trigger] cells@[j])@.len() == result.columns@.len() by {
        assert(cells@[j].deep_view() == tv[j]);
        assert(tv[j].len() == cells@[j]@.len());
        assert(result@.rows[j].len() == result@.columns.len());
    }
    let widths = column_widths(&result.columns, &cells);
    let ghost ws = col_widths(cv, tv);
    let ghost lines = table_lines(cv, tv);
    let mut out = String::new();
    push_line(&mut out, &result.columns, &widths, Ghost(ws));
    let div = divider_texts(&widths, Ghost(ws));
    push_line(&mut out, &div, &widths, Ghost(ws));
    proof {
        assert(lines.take(2) =~= Seq::<Seq<char>>::empty().push(lines[0]).push(lines[1]));
        Seq::<Seq<char>>::empty().lemma_flatten_push(lines[0]);
        Seq::<Seq<char>>::empty().push(lines[0]).lemma_flatten_push(lines[1]);
        assert(out@ =~= lines.take(2).flatten());
    }
    for j in 0..cells.len()
        invariant
            cv == result.columns.deep_view(),
            tv == cells.deep_view(),
            ws == col_widths(cv, tv),
            lines == table_lines(cv, tv),
            widths@.len() == cv.len(),
            forall|i: int| 0 <= i < cv.len() ==> widths@[i] as nat == ws[i],
            forall|m: int| 0 <= m < cells@.len() ==> (#[trigger] cells@[m])@.len() == cv.len(),
            out@ == lines.take(j + 2).flatten(),
    {
        assert(tv[j as int] == cells@[j as int].deep_view());
        push_line(&mut out, &cells[j], &widths, Ghost(ws));
        proof {
            assert(lines.take(j + 3) =~= lines.take(j + 2).push(lines[j + 2]));
            lines.take(j + 2).lemma_flatten_push(lines[j + 2]);
        }
    }
    assert(lines.take(cells@.len() as int + 2) =~= lines);
    out
}

/// The connection a summary names: `Kind@name` when exactly one source is
/// configured, none otherwise.
pub open spec fn connection_label(sources: Seq<(Seq<char>, DatabaseKind)>) -> Option<Seq<char>> {
    if sources.len() == 1 {
        Some(kind_name(sources[0].1) + "@"@ + sources[0].0)
    } else {
        None
    }
}

/// What a summary counts: the affected rows of a statement that returned no
/// rows but changed some, the returned rows otherwise.
pub open spec fn counted(r: ResultView) -> (nat, Seq<char>) {
    if r.rows.len() == 0 && r.rows_affected > 0 {
        (r.rows_affected as nat, "rows affected"@)
    } else {
        (r.rows.len(), "rows"@)
    }
}

/// `N rows in Xms` (or `N rows affected in Xms`), followed by ` (Kind@name)`
/// when exactly one source is configured.
pub open spec fn summary_text(r: ResultView, sources: Seq<(Seq<char>, DatabaseKind)>) -> Seq<char> {
    let base = decimal(counted(r).0) + " "@ + counted(r).1 + " in "@ + decimal(r.elapsed_ms as nat) + "ms"@;
    match connection_label(sources) {
        Some(label) => base + " ("@ + label + ")"@,
        None => base,
    }
}

/// `Kind@name` for the only configured source, if there is exactly one.
fn single_connection_label(source_db: &[(String, DatabaseKind)]) -> (r: Option<String>)
    ensures
        match r {
            Some(s) => connection_label(source_db.deep_view()) == Some(s@),
            None => connection_label(source_db.deep_view()) is None,
        },
{
    if source_db.len() == 1 {
        let (name, kind) = &source_db[0];
        let mut label = kind.name();
        label.append("@");
        label.append(name.as_str());
        assert(source_db.deep_view()[0] == (name@, *kind));
        Some(label)
    } else {
        None
    }
}

/// The one-line summary of a result: `N rows in Xms`, or
/// `N rows affected in Xms` for a statement that changed rows and returned
/// none, annotated with ` (Kind@name)` when exactly one source is
/// configured.
pub fn summary_line(result: &QueryResult, source_db: &[(String, DatabaseKind)]) -> (r: String)
    ensures
        r@ == summary_text(result@, source_db.deep_view()),
{
    let affected_only = result.rows.len() == 0 && result.rows_affected > 0;
    let count: u128 = if affected_only {
        result.rows_affected as u128
    } else {
        result.rows.len() as u128
    };
    let mut out = u128_to_string(count);
    out.append(" ");
    if affected_only {
        out.append("rows affected");
    } else {
        out.append("rows");
    }
    out.append(" in ");
    push_decimal(&mut out, result.elapsed_ms);
    out.append("ms");
    let ghost base = out@;
    assert(base =~= decimal(counted(result@).0) + " "@ + counted(result@).1 + " in "@ + decimal(
        result@.elapsed_ms as nat,
    ) + "ms"@);
    match single_connection_label(source_db) {
        Some(label) => {
            out.append(" (");
            out.append(label.as_str());
            out.append(")");
        },
        None => {},
    }
    out
}

/// The characters the first `n` cells take on a line: each its width and
/// three more (a space before, a space and a bar after).
pub open spec fn segments_width(widths: Seq<nat>, n: int) -> nat
    decreases n,
{
    if n <= 0 {
        0
    } else {
        segments_width(widths, n - 1) + widths[n - 1] + 3
    }
}

proof fn lemma_segments_length(texts: Seq<Seq<char>>, widths: Seq<nat>, n: int)
    requires
        0 <= n <= widths.len(),
        texts.len() == widths.len(),
        forall|i: int| 0 <= i < widths.len() ==> (#[trigger] texts[i]).len() <= widths[i],
    ensures
        segments(texts, widths, n).flatten().len() == segments_width(widths, n),
    decreases n,
{
    if n > 0 {
        lemma_segments_length(texts, widths, n - 1);
        let before = segments(texts, widths, n - 1);
        let one = segment(texts[n - 1], widths[n - 1]);
        assert(segments(texts, widths, n) =~= before.push(one));
        before.lemma_flatten_push(one);
        assert(padded(texts[n - 1], widths[n - 1]).len() == widths[n - 1]);
    } else {
        assert(segments(texts, widths, 0) =~= Seq::<Seq<char>>::empty());
    }
}

/// A line whose texts fit their widths is two characters of frame plus the
/// width of its cells.
proof fn lemma_line_length(texts: Seq<Seq<char>>, widths: Seq<nat>)
    requires
        texts.len() == widths.len(),
        forall|i: int| 0 <= i < widths.len() ==> (#[trigger] texts[i]).len() <= widths[i],
    ensures
        line_of(texts, widths).len() == 2 + segments_width(widths, widths.len() as int),
{
    lemma_segments_length(texts, widths, widths.len() as int);
}

proof fn lemma_tallest_bounds(cells: Seq<Seq<Seq<char>>>, i: int, n: int, k: int)
    requires
        0 <= k < n <= cells.len(),
    ensures
        cells[k][i].len() <= tallest(cells, i, n),
    decreases n,
{
    if k < n - 1 {
        lemma_tallest_bounds(cells, i, n - 1, k);
    }
}

proof fn lemma_tallest_attained(cells: Seq<Seq<Seq<char>>>, i: int, n: int)
    requires
        0 <= n <= cells.len(),
    ensures
        tallest(cells, i, n) == 0 || exists|k: int| 0 <= k < n && tallest(cells, i, n) == (#[trigger] cells[k])[i].len(),
    decreases n,
{
    if n > 0 {
        lemma_tallest_attained(cells, i, n - 1);
    }
}

/// Each column is exactly as wide as its widest member: no narrower than
/// its name or any of its cells, and as wide as one of them.
pub proof fn lemma_width_is_widest_member(columns: Seq<Seq<char>>, cells: Seq<Seq<Seq<char>>>, i: int)
    requires
        0 <= i < columns.len(),
        forall|j: int| 0 <= j < cells.len() ==> (#[trigger] cells[j]).len() == columns.len(),
    ensures
        columns[i].len() <= col_width(columns, cells, i),
        forall|j: int| 0 <= j < cells.len() ==> (#[trigger] cells[j])[i].len() <= col_width(columns, cells, i),
        col_width(columns, cells, i) == columns[i].len() || exists|j: int|
            0 <= j < cells.len() && col_width(columns, cells, i) == (#[trigger] cells[j])[i].len(),
{
    assert forall|j: int| 0 <= j < cells.len() implies (#[trigger] cells[j])[i].len() <= col_width(columns, cells, i) by {
        lemma_tallest_bounds(cells, i, cells.len() as int, j);
    }
    lemma_tallest_attained(cells, i, cells.len() as int);
}

/// Every line of a rendered table (header, divider and rows) has the same
/// length: two characters of frame, then per column its width and three
/// characters of padding and separator.
pub proof fn lemma_lines_equal_length(columns: Seq<Seq<char>>, cells: Seq<Seq<Seq<char>>>)
    requires
        forall|j: int| 0 <= j < cells.len() ==> (#[trigger] cells[j]).len() == columns.len(),
    ensures
        forall|k: int|
            0 <= k < table_lines(columns, cells).len() ==> (#[trigger] table_lines(columns, cells)[k]).len() == 2
                + segments_width(col_widths(columns, cells), columns.len() as int),
{
    let widths = col_widths(columns, cells);
    let lines = table_lines(columns, cells);
    assert forall|i: int| 0 <= i < widths.len() implies (#[trigger] columns[i]).len() <= widths[i] by {
        lemma_width_is_widest_member(columns, cells, i);
    }
    lemma_line_length(columns, widths);
    let div = divider(widths);
    assert forall|i: int| 0 <= i < widths.len() implies (#[trigger] div[i]).len() <= widths[i] by {}
    lemma_line_length(div, widths);
    assert forall|k: int| 0 <= k < lines.len() implies (#[trigger] lines[k]).len() == 2 + segments_width(
        widths,
        columns.len() as int,
    ) by {
        if k >= 2 {
            let row = cells[k - 2];
            assert forall|i: int| 0 <= i < widths.len() implies (#[trigger] row[i]).len() <= widths[i] by {
                lemma_width_is_widest_member(columns, cells, i);
            }
            lemma_line_length(row, widths);
        }
    }
}

} // verus!
