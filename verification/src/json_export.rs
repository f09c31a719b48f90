//! JSON export through `serde_json`: an object holding the column names,
//! one object per row mapping each column to its cell, the number of rows
//! affected and the elapsed milliseconds, pretty-printed.
//!
//! A JSON number is built from a float value, which the library does not
//! hold; the JSON values of finite float cells are handed in by the caller,
//! keyed by bit pattern.

use vstd::prelude::*;
use serde_json::Value as JsonValue;
use crate::float_bits::{float_is_finite, float_is_finite_exec};
use crate::value::{QueryResult, ResultView, Val};

verus! {

#[verifier::external_type_specification]
#[verifier::external_body]
pub struct ExJsonValue(JsonValue);

#[verifier::external_type_specification]
#[verifier::external_body]
#[verifier::reject_recursive_types(K)]
#[verifier::reject_recursive_types(V)]
pub struct ExJsonMap<K, V>(serde_json::Map<K, V>);

/// A JSON object's entries.
pub type JsonMap = serde_json::Map<String, JsonValue>;

#[verifier::external_type_specification]
#[verifier::external_body]
pub struct ExJsonError(serde_json::Error);

/// The content of a JSON value.
pub ghost enum JsonTree {
    Null,
    Bool(bool),
    Int(int),
    Text(Seq<char>),
    Array(Seq<JsonTree>),
    Object(Map<Seq<char>, JsonTree>),
}

/// What a `serde_json::Value` holds.
pub uninterp spec fn json_tree(v: JsonValue) -> JsonTree;

/// The entries a `serde_json::Map` holds, by key.
pub uninterp spec fn json_entries(m: JsonMap) -> Map<Seq<char>, JsonTree>;

/// The bytes `serde_json::to_vec_pretty` produces for a value.
pub uninterp spec fn json_pretty(t: JsonTree) -> Seq<u8>;

/// `serde_json::Value::Null`.
#[verifier::external_body]
fn json_null() -> (r: JsonValue)
    ensures
        json_tree(r) == JsonTree::Null,
{
    serde_json::Value::Null
}

/// `serde_json::Value::Bool`.
#[verifier::external_body]
fn json_bool(b: bool) -> (r: JsonValue)
    ensures
        json_tree(r) == JsonTree::Bool(b),
{
    serde_json::Value::Bool(b)
}

/// `serde_json::Value::Number` from an `i64`, through `Number::from`.
#[verifier::external_body]
fn json_i64(n: i64) -> (r: JsonValue)
    ensures
        json_tree(r) == JsonTree::Int(n as int),
{
    serde_json::Value::Number(serde_json::Number::from(n))
}

/// `serde_json::Value::Number` from a `u64`, through `Number::from`.
#[verifier::external_body]
fn json_u64(n: u64) -> (r: JsonValue)
    ensures
        json_tree(r) == JsonTree::Int(n as int),
{
    serde_json::Value::Number(serde_json::Number::from(n))
}

/// `serde_json::Value::String`.
#[verifier::external_body]
fn json_text(s: String) -> (r: JsonValue)
    ensures
        json_tree(r) == JsonTree::Text(s@),
{
    serde_json::Value::String(s)
}

/// `serde_json::Value::Array`: the items in order.
#[verifier::external_body]
fn json_array(items: Vec<JsonValue>) -> (r: JsonValue)
    ensures
        json_tree(r) == JsonTree::Array(Seq::new(items@.len(), |i: int| json_tree(items@[i]))),
{
    serde_json::Value::Array(items)
}

/// The entries of an empty object.
pub open spec fn no_entries() -> Map<Seq<char>, JsonTree> {
    Map::empty()
}

/// `serde_json::Map::new`: no entries.
#[verifier::external_body]
fn json_map() -> (r: JsonMap)
    ensures
        json_entries(r) == no_entries(),
{
    serde_json::Map::new()
}

/// `serde_json::Map::insert`: the key now maps to the value, replacing an
/// earlier one.
#[verifier::external_body]
fn json_insert(m: &mut JsonMap, key: String, value: JsonValue)
    ensures
        json_entries(*final(m)) == json_entries(*old(m)).insert(key@, json_tree(value)),
{
    m.insert(key, value);
}

/// `serde_json::Value::Object`.
#[verifier::external_body]
fn json_object(m: JsonMap) -> (r: JsonValue)
    ensures
        json_tree(r) == JsonTree::Object(json_entries(m)),
{
    serde_json::Value::Object(m)
}

/// `Clone` of a `serde_json::Value`: the same content.
#[verifier::external_body]
fn json_clone(v: &JsonValue) -> (r: JsonValue)
    ensures
        json_tree(r) == json_tree(*v),
{
    v.clone()
}

/// `serde_json::to_vec_pretty` on a value. Serializing a `Value` into a
/// `Vec<u8>` cannot fail: its keys are strings and its numbers finite.
#[verifier::external_body]
fn json_pretty_bytes(v: &JsonValue) -> (r: Result<Vec<u8>, serde_json::Error>)
    ensures
        r is Ok,
        r.unwrap()@ == json_pretty(json_tree(*v)),
{
    serde_json::to_vec_pretty(v)
}

/// The JSON value handed in for a float's bits: the first entry with
/// those bits.
pub open spec fn float_json(floats: Seq<(u64, JsonValue)>, bits: u64) -> Option<JsonTree>
    decreases floats.len(),
{
    if floats.len() == 0 {
        None
    } else if floats[0].0 == bits {
        Some(json_tree(floats[0].1))
    } else {
        float_json(floats.drop_first(), bits)
    }
}

/// The JSON value of a cell: `null`, a string, an integer or a boolean; a
/// finite float by the value handed in for it, any other float as `null`.
pub open spec fn cell_json(v: Val, floats: Seq<(u64, JsonValue)>) -> Option<JsonTree> {
    match v {
        Val::Null => Some(JsonTree::Null),
        Val::Str(s) => Some(JsonTree::Text(s)),
        Val::Int(n) => Some(JsonTree::Int(n as int)),
        Val::Bool(b) => Some(JsonTree::Bool(b)),
        Val::Float(b) => if float_is_finite(b) {
            float_json(floats, b)
        } else {
            Some(JsonTree::Null)
        },
    }
}

/// Every row has a cell for each column, and each of those cells has a
/// JSON value.
pub open spec fn json_ready(r: ResultView, floats: Seq<(u64, JsonValue)>) -> bool {
    &&& forall|j: int| 0 <= j < r.rows.len() ==> (#[trigger] r.rows[j]).len() >= r.columns.len()
    &&& forall|j: int, i: int|
        0 <= j < r.rows.len() && 0 <= i < r.columns.len() ==> (#[trigger] cell_json(r.rows[j][i], floats)) is Some
}

/// The object of a row over its first `n` columns: each column name maps
/// to the cell under it, a later column replacing an earlier one of the
/// same name.
pub open spec fn row_entries(
    columns: Seq<Seq<char>>,
    row: Seq<Val>,
    floats: Seq<(u64, JsonValue)>,
    n: int,
) -> Map<Seq<char>, JsonTree>
    decreases n,
{
    if n <= 0 {
        Map::empty()
    } else {
        row_entries(columns, row, floats, n - 1).insert(columns[n - 1], cell_json(row[n - 1], floats).unwrap())
    }
}

/// The object of a row.
pub open spec fn row_json(columns: Seq<Seq<char>>, row: Seq<Val>, floats: Seq<(u64, JsonValue)>) -> JsonTree {
    JsonTree::Object(row_entries(columns, row, floats, columns.len() as int))
}

/// The JSON document of a result: `columns`, `rows`, `rows_affected` and
/// `elapsed_ms` (the elapsed time cut to 64 bits).
pub open spec fn result_json(r: ResultView, floats: Seq<(u64, JsonValue)>) -> JsonTree {
    JsonTree::Object(
        Map::empty().insert(
            "columns"@,
            JsonTree::Array(Seq::new(r.columns.len(), |i: int| JsonTree::Text(r.columns[i]))),
        ).insert(
            "rows"@,
            JsonTree::Array(Seq::new(r.rows.len(), |j: int| row_json(r.columns, r.rows[j], floats))),
        ).insert("rows_affected"@, JsonTree::Int(r.rows_affected as int)).insert(
            "elapsed_ms"@,
            JsonTree::Int((r.elapsed_ms as u64) as int),
        ),
    )
}

/// The JSON value handed in for a float's bits, if any.
fn find_float_json(floats: &[(u64, JsonValue)], bits: u64) -> (r: Option<JsonValue>)
    ensures
        match r {
            Some(v) => float_json(floats@, bits) == Some(json_tree(v)),
            None => float_json(floats@, bits) is None,
        },
{
    let ghost fv = floats@;
    let mut k: usize = 0;
    assert(fv.subrange(0, fv.len() as int) =~= fv);
    while k < floats.len()
        invariant
            fv == floats@,
            k <= fv.len(),
            float_json(fv, bits) == float_json(fv.subrange(k as int, fv.len() as int), bits),
        decreases fv.len() - k,
    {
        let ghost rest = fv.subrange(k as int, fv.len() as int);
        assert(rest[0] == fv[k as int]);
        assert(rest.drop_first() =~= fv.subrange(k + 1, fv.len() as int));
        if floats[k].0 == bits {
            return Some(json_clone(&floats[k].1));
        }
        k = k + 1;
    }
    assert(fv.subrange(k as int, fv.len() as int).len() == 0);
    None
}

/// The JSON value of a cell: `null`, a string, an integer or a boolean; a
/// finite float by the value in `floats` for its bits, `NaN` and the
/// infinities as `null`.
pub fn val_to_json(val: &crate::value::Value, floats: &[(u64, JsonValue)]) -> (r: JsonValue)
    requires
        cell_json(val@, floats@) is Some,
    ensures
        Some(json_tree(r)) == cell_json(val@, floats@),
{
    match val {
        crate::value::Value::Null => json_null(),
        crate::value::Value::String(s) => json_text(s.clone()),
        crate::value::Value::Int(n) => json_i64(*n),
        crate::value::Value::Bool(b) => json_bool(*b),
        crate::value::Value::Float(b) => {
            if float_is_finite_exec(*b) {
                match find_float_json(floats, *b) {
                    Some(v) => v,
                    None => json_null(),
                }
            } else {
                json_null()
            }
        },
    }
}

/// The object of one row.
fn row_object(columns: &Vec<String>, row: &Vec<crate::value::Value>, floats: &[(u64, JsonValue)]) -> (r: JsonValue)
    requires
        row@.len() >= columns@.len(),
        forall|i: int| 0 <= i < columns@.len() ==> (#[trigger] cell_json(row@[i]@, floats@)) is Some,
    ensures
        json_tree(r) == row_json(columns.deep_view(), row.deep_view(), floats@),
{
    let ghost cv = columns.deep_view();
    let ghost rv = row.deep_view();
    let mut obj = json_map();
    for i in 0..columns.len()
        invariant
            cv == columns.deep_view(),
            rv == row.deep_view(),
            row@.len() >= columns@.len(),
            forall|k: int| 0 <= k < columns@.len() ==> (#[trigger] cell_json(row@[k]@, floats@)) is Some,
            json_entries(obj) == row_entries(cv, rv, floats@, i as int),
    {
        assert(rv[i as int] == row@[i as int]@);
        assert(cv[i as int] == columns@[i as int]@);
        let v = val_to_json(&row[i], floats);
        json_insert(&mut obj, columns[i].clone(), v);
    }
    json_object(obj)
}

/// Exports a result as pretty-printed JSON. Float cells are not shown by
/// text here: a finite float takes the JSON value in `float_values` for
/// its bits.
pub struct JsonExporter;

impl JsonExporter {
    /// The pretty-printed JSON document of a result.
    pub fn write(&self, result: &QueryResult, float_values: &[(u64, JsonValue)]) -> (r: Vec<u8>)
        requires
            json_ready(result@, float_values@),
        ensures
            r@ == json_pretty(result_json(result@, float_values@)),
    {
        let ghost rv = result@;
        let ghost fv = float_values@;
        let mut names: Vec<JsonValue> = Vec::new();
        for i in 0..result.columns.len()
            invariant
                rv == result@,
                names@.len() == i,
                forall|k: int| 0 <= k < i ==> json_tree(#[trigger] names@[k]) == JsonTree::Text(rv.columns[k]),
        {
            assert(rv.columns[i as int] == result.columns@[i as int]@);
            names.push(json_text(result.columns[i].clone()));
        }
        let mut rows: Vec<JsonValue> = Vec::new();
        for j in 0..result.rows.len()
            invariant
                rv == result@,
                fv == float_values@,
                json_ready(rv, fv),
                rows@.len() == j,
                forall|k: int| 0 <= k < j ==> json_tree(#[trigger] rows@[k]) == row_json(rv.columns, rv.rows[k], fv),
        {
            let row = &result.rows[j];
            assert(rv.rows[j as int] == row.deep_view());
            assert(rv.rows[j as int].len() >= rv.columns.len());
            assert forall|i: int| 0 <= i < result.columns@.len() implies (#[trigger] cell_json(row@[i]@, fv)) is Some by {
                assert(rv.rows[j as int][i] == row@[i]@);
                assert(cell_json(rv.rows[j as int][i], fv) is Some);
            }
            rows.push(row_object(&result.columns, row, float_values));
        }
        let mut doc = json_map();
        let ghost names_view = names@;
        let ghost rows_view = rows@;
        json_insert(&mut doc, String::from_str("columns"), json_array(names));
        json_insert(&mut doc, String::from_str("rows"), json_array(rows));
        json_insert(&mut doc, String::from_str("rows_affected"), json_u64(result.rows_affected));
        json_insert(&mut doc, String::from_str("elapsed_ms"), json_u64(result.elapsed_ms as u64));
        let v = json_object(doc);
        assert(Seq::new(names_view.len(), |i: int| json_tree(names_view[i])) =~= Seq::new(
            rv.columns.len(),
            |i: int| JsonTree::Text(rv.columns[i]),
        ));
        assert(Seq::new(rows_view.len(), |j: int| json_tree(rows_view[j])) =~= Seq::new(
            rv.rows.len(),
            |j: int| row_json(rv.columns, rv.rows[j], fv),
        ));
        assert(json_tree(v) == result_json(rv, fv));
        match json_pretty_bytes(&v) {
            Ok(b) => b,
            Err(_) => Vec::new(),
        }
    }
}

/// The object of a row has exactly the column names as keys, each mapped
/// to the cell of the last column of that name.
pub proof fn lemma_row_keys(columns: Seq<Seq<char>>, row: Seq<Val>, floats: Seq<(u64, JsonValue)>, n: int)
    requires
        0 <= n <= columns.len(),
    ensures
        row_entries(columns, row, floats, n).dom() == Set::new(|k: Seq<char>| exists|i: int| 0 <= i < n && columns[i] == k),
        forall|i: int|
            0 <= i < n && (forall|m: int| i < m < n ==> columns[m] != columns[i]) ==> #[trigger] row_entries(
                columns,
                row,
                floats,
                n,
            )[columns[i]] == cell_json(row[i], floats).unwrap(),
    decreases n,
{
    if n > 0 {
        lemma_row_keys(columns, row, floats, n - 1);
        let before = Set::new(|k: Seq<char>| exists|i: int| 0 <= i < n - 1 && columns[i] == k);
        let after = Set::new(|k: Seq<char>| exists|i: int| 0 <= i < n && columns[i] == k);
        assert forall|k: Seq<char>| #[trigger] after.contains(k) == before.insert(columns[n - 1]).contains(k) by {
            if after.contains(k) && k != columns[n - 1] {
                let i = choose|i: int| 0 <= i < n && columns[i] == k;
                assert(i < n - 1);
                assert(before.contains(k));
            }
            if before.contains(k) {
                let i = choose|i: int| 0 <= i < n - 1 && columns[i] == k;
                assert(0 <= i < n && columns[i] == k);
            }
            if k == columns[n - 1] {
                assert(0 <= n - 1 < n && columns[n - 1] == k);
            }
        }
        assert(after =~= before.insert(columns[n - 1]));
    } else {
        assert(row_entries(columns, row, floats, 0).dom() =~= Set::new(
            |k: Seq<char>| exists|i: int| 0 <= i < 0 && columns[i] == k,
        ));
    }
}

} // verus!
