//! XML export through `quick_xml`: a `results` element whose `columns`
//! attribute lists the column names, holding one `row` element per row and,
//! in it, one `col` element per cell, named after its column.

use vstd::prelude::*;
use vstd::utf8::encode_utf8;
use crate::export::{ExportError, Exporter};
use crate::render_table::{cell_text, shown, shows_all};
use crate::text::push_char;
use crate::value::{QueryResult, ResultView, Val};

verus! {

#[verifier::external_type_specification]
#[verifier::external_body]
#[verifier::reject_recursive_types(W)]
pub struct ExXmlWriter<W>(quick_xml::Writer<W>);

#[verifier::external_type_specification]
#[verifier::external_body]
pub struct ExBytesStart<'i>(quick_xml::events::BytesStart<'i>);

#[verifier::external_type_specification]
#[verifier::external_body]
pub struct ExIoError(std::io::Error);

/// The text an XML writer over a byte buffer has written so far.
pub uninterp spec fn xml_written(w: quick_xml::Writer<Vec<u8>>) -> Seq<char>;

/// The text inside the brackets of a start tag: its name, then each
/// attribute.
pub uninterp spec fn start_text(e: quick_xml::events::BytesStart<'static>) -> Seq<char>;

/// How `quick_xml::escape::escape` writes a character of text content.
pub open spec fn escaped_char(c: char) -> Seq<char> {
    if c == '<' {
        "&lt;"@
    } else if c == '>' {
        "&gt;"@
    } else if c == '&' {
        "&amp;"@
    } else if c == '\'' {
        "&apos;"@
    } else if c == '"' {
        "&quot;"@
    } else if c == '\r' {
        "&#13;"@
    } else {
        seq![c]
    }
}

/// How `quick_xml` writes a character of an attribute value: as in text,
/// and also a line feed or a tab as a character reference.
pub open spec fn attr_escaped_char(c: char) -> Seq<char> {
    if c == '\n' {
        "&#10;"@
    } else if c == '\t' {
        "&#9;"@
    } else {
        escaped_char(c)
    }
}

/// Text content with the XML special characters escaped.
pub open spec fn xml_escape(s: Seq<char>) -> Seq<char> {
    Seq::new(s.len(), |i: int| escaped_char(s[i])).flatten()
}

/// An attribute value with the XML special characters escaped.
pub open spec fn attr_escape(s: Seq<char>) -> Seq<char> {
    Seq::new(s.len(), |i: int| attr_escaped_char(s[i])).flatten()
}

/// One event handed to the XML writer.
pub enum XmlEvent {
    /// A start tag.
    Start(quick_xml::events::BytesStart<'static>),
    /// Text content, escaped when written.
    Text(String),
    /// An end tag with the given name.
    End(String),
}

/// `quick_xml::Writer::new` over an empty `Vec<u8>`, without indentation.
#[verifier::external_body]
fn xml_writer() -> (w: quick_xml::Writer<Vec<u8>>)
    ensures
        xml_written(w) == Seq::<char>::empty(),
{
    quick_xml::Writer::new(Vec::new())
}

/// `quick_xml::events::BytesStart::new`: a start tag with the given name
/// and no attributes.
#[verifier::external_body]
fn start_tag(name: String) -> (e: quick_xml::events::BytesStart<'static>)
    ensures
        start_text(e) == name@,
{
    quick_xml::events::BytesStart::new(name)
}

/// `BytesStart::push_attribute` with a `(key, value)` pair: appends a
/// space, the key, `="`, the value escaped for an attribute, and `"`.
#[verifier::external_body]
fn push_attribute(e: &mut quick_xml::events::BytesStart<'static>, key: &str, value: &str)
    ensures
        start_text(*final(e)) == start_text(*old(e)) + seq![' '] + key@ + "=\""@ + attr_escape(value@)
            + seq!['"'],
{
    e.push_attribute((key, value));
}

/// `quick_xml::Writer::write_event` on a writer without indentation: a
/// start tag is written as `<`, its text and `>`; text content is escaped
/// by `BytesText::new` and written as is; an end tag is written as `</`,
/// its name and `>`. Writing into a `Vec<u8>` cannot fail.
#[verifier::external_body]
fn write_event(w: &mut quick_xml::Writer<Vec<u8>>, event: XmlEvent) -> (r: Result<(), std::io::Error>)
    ensures
        r is Ok,
        xml_written(*final(w)) == xml_written(*old(w)) + match event {
            XmlEvent::Start(e) => seq!['<'] + start_text(e) + seq!['>'],
            XmlEvent::Text(t) => xml_escape(t@),
            XmlEvent::End(n) => "</"@ + n@ + seq!['>'],
        },
{
    match event {
        XmlEvent::Start(e) => w.write_event(quick_xml::events::Event::Start(e)),
        XmlEvent::Text(t) => w.write_event(quick_xml::events::Event::Text(quick_xml::events::BytesText::new(&t))),
        XmlEvent::End(n) => w.write_event(quick_xml::events::Event::End(quick_xml::events::BytesEnd::new(n))),
    }
}

/// `quick_xml::Writer::into_inner`: the buffer, which holds the UTF-8
/// bytes of the text written.
#[verifier::external_body]
fn xml_into_bytes(w: quick_xml::Writer<Vec<u8>>) -> (r: Vec<u8>)
    ensures
        r@ == encode_utf8(xml_written(w)),
{
    w.into_inner()
}

/// Texts joined with a separator between each two.
pub open spec fn joined(items: Seq<Seq<char>>, sep: Seq<char>) -> Seq<char>
    decreases items.len(),
{
    if items.len() == 0 {
        Seq::empty()
    } else if items.len() == 1 {
        items[0]
    } else {
        joined(items.drop_last(), sep) + sep + items.last()
    }
}

/// The element of one cell: `<col name="...">text</col>`.
pub open spec fn col_xml(name: Seq<char>, text: Seq<char>) -> Seq<char> {
    "<col name=\""@ + attr_escape(name) + "\">"@ + xml_escape(text) + "</col>"@
}

/// The elements of the first `n` cells of a row.
pub open spec fn cols_xml(columns: Seq<Seq<char>>, row: Seq<Val>, texts: Seq<(u64, Seq<char>)>, n: int) -> Seq<Seq<char>> {
    Seq::new(n as nat, |i: int| col_xml(columns[i], shown(row[i], texts).unwrap()))
}

/// The element of one row: `<row>`, its cells, `</row>`.
pub open spec fn row_xml(columns: Seq<Seq<char>>, row: Seq<Val>, texts: Seq<(u64, Seq<char>)>) -> Seq<char> {
    "<row>"@ + cols_xml(columns, row, texts, row.len() as int).flatten() + "</row>"@
}

/// The elements of the first `n` rows.
pub open spec fn rows_xml(r: ResultView, texts: Seq<(u64, Seq<char>)>, n: int) -> Seq<Seq<char>> {
    Seq::new(n as nat, |j: int| row_xml(r.columns, r.rows[j], texts))
}

/// The XML document of a result.
pub open spec fn xml_doc(r: ResultView, texts: Seq<(u64, Seq<char>)>) -> Seq<char> {
    "<results columns=\""@ + attr_escape(joined(r.columns, ","@)) + "\">"@ + rows_xml(
        r,
        texts,
        r.rows.len() as int,
    ).flatten() + "</results>"@
}

/// The column names joined by commas.
fn join_columns(columns: &Vec<String>) -> (r: String)
    ensures
        r@ == joined(columns.deep_view(), ","@),
{
    let ghost cv = columns.deep_view();
    proof {
        reveal_strlit(",");
    }
    if columns.len() == 0 {
        return String::new();
    }
    let mut out = columns[0].clone();
    assert(cv.take(1).len() == 1);
    assert(out@ == joined(cv.take(1), ","@));
    let mut i: usize = 1;
    while i < columns.len()
        invariant
            cv == columns.deep_view(),
            1 <= i <= cv.len(),
            out@ == joined(cv.take(i as int), ","@),
            ","@ == seq![','],
        decreases cv.len() - i,
    {
        push_char(&mut out, ',');
        out.append(columns[i].as_str());
        assert(cv.take(i + 1).drop_last() =~= cv.take(i as int));
        assert(cv.take(i + 1).last() == columns@[i as int]@);
        i = i + 1;
    }
    assert(cv.take(cv.len() as int) =~= cv);
    out
}

/// The literal pieces of the written tags, spelled out.
proof fn lemma_tag_texts()
    ensures
        "results"@ == seq!['r', 'e', 's', 'u', 'l', 't', 's'],
        "row"@ == seq!['r', 'o', 'w'],
        "col"@ == seq!['c', 'o', 'l'],
        "name"@ == seq!['n', 'a', 'm', 'e'],
        "columns"@ == seq!['c', 'o', 'l', 'u', 'm', 'n', 's'],
        "=\""@ == seq!['=', '"'],
        "</"@ == seq!['<', '/'],
        "<col name=\""@ == seq!['<', 'c', 'o', 'l', ' ', 'n', 'a', 'm', 'e', '=', '"'],
        "\">"@ == seq!['"', '>'],
        "</col>"@ == seq!['<', '/', 'c', 'o', 'l', '>'],
        "<row>"@ == seq!['<', 'r', 'o', 'w', '>'],
        "</row>"@ == seq!['<', '/', 'r', 'o', 'w', '>'],
        "<results columns=\""@ == seq!['<', 'r', 'e', 's', 'u', 'l', 't', 's', ' ', 'c', 'o', 'l', 'u', 'm', 'n', 's', '=', '"'],
        "</results>"@ == seq!['<', '/', 'r', 'e', 's', 'u', 'l', 't', 's', '>'],
{
    reveal_strlit("results");
    reveal_strlit("row");
    reveal_strlit("col");
    reveal_strlit("name");
    reveal_strlit("columns");
    reveal_strlit("=\"");
    reveal_strlit("</");
    reveal_strlit("<col name=\"");
    reveal_strlit("\">");
    reveal_strlit("</col>");
    reveal_strlit("<row>");
    reveal_strlit("</row>");
    reveal_strlit("<results columns=\"");
    reveal_strlit("</results>");
}

/// Writes the element of one cell.
fn write_col(w: &mut quick_xml::Writer<Vec<u8>>, name: &String, text: String)
    ensures
        xml_written(*final(w)) == xml_written(*old(w)) + col_xml(name@, text@),
{
    proof {
        lemma_tag_texts();
    }
    let mut el = start_tag(String::from_str("col"));
    push_attribute(&mut el, "name", name.as_str());
    let _ = write_event(w, XmlEvent::Start(el));
    let ghost t = text@;
    let _ = write_event(w, XmlEvent::Text(text));
    let _ = write_event(w, XmlEvent::End(String::from_str("col")));
    assert(xml_written(*w) =~= xml_written(*old(w)) + col_xml(name@, t));
}

/// Exports a result as XML.
pub struct XmlExporter;

/// Each row has at most one cell per column.
pub open spec fn rows_within(result: ResultView) -> bool {
    forall|j: int| 0 <= j < result.rows.len() ==> (#[trigger] result.rows[j]).len() <= result.columns.len()
}

impl Exporter for XmlExporter {
    /// No row has more cells than there are columns (each cell is named
    /// after its column), and every cell can be shown.
    open spec fn accepts(&self, result: ResultView, texts: Seq<(u64, Seq<char>)>) -> bool {
        rows_within(result) && shows_all(result.rows, texts)
    }

    /// The UTF-8 bytes of the result's XML document.
    fn write(&self, result: &QueryResult, float_texts: &[(u64, String)]) -> (r: Result<Vec<u8>, ExportError>)
        ensures
            r is Ok,
            r->Ok_0@ == encode_utf8(xml_doc(result@, float_texts.deep_view())),
    {
        proof {
            lemma_tag_texts();
        }
        let ghost rv = result@;
        let ghost fv = float_texts.deep_view();
        let mut w = xml_writer();
        let mut root = start_tag(String::from_str("results"));
        let names = join_columns(&result.columns);
        push_attribute(&mut root, "columns", names.as_str());
        let _ = write_event(&mut w, XmlEvent::Start(root));
        let ghost head = xml_written(w);
        assert(head =~= "<results columns=\""@ + attr_escape(joined(rv.columns, ","@)) + "\">"@);
        assert(rows_xml(rv, fv, 0).flatten() =~= Seq::<char>::empty());
        for j in 0..result.rows.len()
            invariant
                rv == result@,
                fv == float_texts.deep_view(),
                rows_within(rv),
                shows_all(rv.rows, fv),
                xml_written(w) == head + rows_xml(rv, fv, j as int).flatten(),
        {
            proof {
                lemma_tag_texts();
            }
            let row = &result.rows[j];
            assert(rv.rows[j as int] == row.deep_view());
            let ghost before_row = xml_written(w);
            let _ = write_event(&mut w, XmlEvent::Start(start_tag(String::from_str("row"))));
            let ghost open = xml_written(w);
            assert(open =~= before_row + "<row>"@);
            assert(cols_xml(rv.columns, rv.rows[j as int], fv, 0).flatten() =~= Seq::<char>::empty());
            for i in 0..row.len()
                invariant
                    rv == result@,
                    fv == float_texts.deep_view(),
                    rows_within(rv),
                    shows_all(rv.rows, fv),
                    j < rv.rows.len(),
                    rv.rows[j as int] == row.deep_view(),
                    xml_written(w) == open + cols_xml(rv.columns, rv.rows[j as int], fv, i as int).flatten(),
            {
                assert(rv.rows[j as int][i as int] == row@[i as int]@);
                assert(shown(rv.rows[j as int][i as int], fv) is Some);
                assert(rv.rows[j as int].len() <= rv.columns.len());
                assert(rv.columns[i as int] == result.columns@[i as int]@);
                let text = cell_text(&row[i], float_texts);
                write_col(&mut w, &result.columns[i], text);
                proof {
                    let cs = cols_xml(rv.columns, rv.rows[j as int], fv, i as int);
                    let c = col_xml(rv.columns[i as int], shown(rv.rows[j as int][i as int], fv).unwrap());
                    assert(cols_xml(rv.columns, rv.rows[j as int], fv, i + 1) =~= cs.push(c));
                    cs.lemma_flatten_push(c);
                }
            }
            let _ = write_event(&mut w, XmlEvent::End(String::from_str("row")));
            proof {
                let rs = rows_xml(rv, fv, j as int);
                let one = row_xml(rv.columns, rv.rows[j as int], fv);
                assert(xml_written(w) =~= before_row + one);
                assert(rows_xml(rv, fv, j + 1) =~= rs.push(one));
                rs.lemma_flatten_push(one);
            }
        }
        proof {
            lemma_tag_texts();
        }
        let _ = write_event(&mut w, XmlEvent::End(String::from_str("results")));
        assert(xml_written(w) =~= xml_doc(rv, fv));
        Ok(xml_into_bytes(w))
    }
}

} // verus!
