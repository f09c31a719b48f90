//! Joining two query results: by hashing an equi-join key, or by testing
//! every pair of rows.

use vstd::prelude::*;
use crate::ast::{BinaryOp, Expression};
use crate::expr::{env_of, eval_expr_bool_at, find_column, find_qualified_column, resolve_qualified};
use crate::expr_spec::{position_from, qualified_position};
use crate::joins_spec::{
    JoinKind, JoinStrategy, equi_columns, field_name, has_partner, hash_matched, joined_with,
    key_of, matching_indices, nulls, side_position, unpartnered,
    groups_ok, hash_join_rows, lemma_group_join, lemma_group_new, lemma_matching_bounded,
    lemma_matching_congruent, lemma_matching_member, lemma_matching_none, lemma_val_eq_symmetric,
    lemma_val_eq_reflexive_sides, Scan, cond_test, cross_join_rows, every_pair, left_matched,
    limit_reached, nested_join_rows, right_matched, scan_pairs, unmatched_left,
    unmatched_right, pair_test,
};
use crate::value::ResultView;
use crate::clock::{is_timestamp, now_text};
use crate::expr_spec::EvalEnv;
use crate::value::{QueryResult, Val, Value, as_index, copy_opt_text, copy_row, copy_value, val_eq, values_equal};

verus! {

/// Errors of query execution.
#[derive(Debug)]
pub enum RiverError {
    Unsupported(String),
}

fn append_texts(out: &mut Vec<String>, xs: &[String])
    ensures
        final(out).deep_view() == old(out).deep_view() + xs.deep_view(),
{
    let ghost start = out.deep_view();
    for i in 0..xs.len()
        invariant
            out.deep_view() == start + xs.deep_view().take(i as int),
    {
        let ghost before = out.deep_view();
        out.push(xs[i].clone());
        assert(out.deep_view() =~= before.push(xs@[i as int]@));
        assert(xs.deep_view().take(i + 1) =~= xs.deep_view().take(i as int).push(xs@[i as int]@));
    }
    assert(xs.deep_view().take(xs.len() as int) =~= xs.deep_view());
}

fn append_sources(out: &mut Vec<Option<String>>, xs: &[Option<String>])
    ensures
        final(out).deep_view() == old(out).deep_view() + xs.deep_view(),
{
    let ghost start = out.deep_view();
    for i in 0..xs.len()
        invariant
            out.deep_view() == start + xs.deep_view().take(i as int),
    {
        let ghost before = out.deep_view();
        out.push(copy_opt_text(&xs[i]));
        assert(out.deep_view() =~= before.push(xs@[i as int].deep_view()));
        assert(xs.deep_view().take(i + 1) =~= xs.deep_view().take(i as int).push(
            xs@[i as int].deep_view(),
        ));
    }
    assert(xs.deep_view().take(xs.len() as int) =~= xs.deep_view());
}

fn append_values(out: &mut Vec<Value>, xs: &[Value])
    ensures
        final(out).deep_view() == old(out).deep_view() + xs.deep_view(),
{
    let ghost start = out.deep_view();
    for i in 0..xs.len()
        invariant
            out.deep_view() == start + xs.deep_view().take(i as int),
    {
        let ghost before = out.deep_view();
        out.push(copy_value(&xs[i]));
        assert(out.deep_view() =~= before.push(xs@[i as int]@));
        assert(xs.deep_view().take(i + 1) =~= xs.deep_view().take(i as int).push(xs@[i as int]@));
    }
    assert(xs.deep_view().take(xs.len() as int) =~= xs.deep_view());
}

/// The columns and sources of a join: the left ones, then the right ones.
pub fn merge_columns(
    left_cols: &[String],
    left_sources: &[Option<String>],
    right_cols: &[String],
    right_sources: &[Option<String>],
) -> (r: (Vec<String>, Vec<Option<String>>))
    ensures
        r.0.deep_view() == left_cols.deep_view() + right_cols.deep_view(),
        r.1.deep_view() == left_sources.deep_view() + right_sources.deep_view(),
{
    let mut cols: Vec<String> = Vec::new();
    let mut sources: Vec<Option<String>> = Vec::new();
    assert(cols.deep_view() =~= Seq::<Seq<char>>::empty());
    assert(sources.deep_view() =~= Seq::<Option<Seq<char>>>::empty());
    append_texts(&mut cols, left_cols);
    append_texts(&mut cols, right_cols);
    append_sources(&mut sources, left_sources);
    append_sources(&mut sources, right_sources);
    assert(cols.deep_view() =~= left_cols.deep_view() + right_cols.deep_view());
    assert(sources.deep_view() =~= left_sources.deep_view() + right_sources.deep_view());
    (cols, sources)
}

/// A joined row: the left cells, then the right cells.
pub fn merge_vals(left: &[Value], right: &[Value]) -> (r: Vec<Value>)
    ensures
        r.deep_view() == left.deep_view() + right.deep_view(),
{
    let mut vals = copy_row(left);
    append_values(&mut vals, right);
    vals
}

/// The name an identifier refers to.
pub fn extract_field_name(expr: &Expression) -> (r: Option<&String>)
    ensures
        match r {
            Some(s) => field_name(*expr) == Some(s@),
            None => field_name(*expr) is None,
        },
{
    match expr {
        Expression::Ident(n) => Some(n),
        Expression::QualifiedIdent { table: _, field } => Some(field),
        _ => None,
    }
}

/// The side and position a column reference resolves to (see
/// `side_position`).
pub fn find_col_idx(
    expr: &Expression,
    left_cols: &[String],
    left_sources: &[Option<String>],
    right_cols: &[String],
    right_sources: &[Option<String>],
) -> (r: Option<(usize, bool)>)
    ensures
        match r {
            Some(p) => side_position(
                *expr,
                left_cols.deep_view(),
                left_sources.deep_view(),
                right_cols.deep_view(),
                right_sources.deep_view(),
            ) == Some((p.0 as int, p.1)),
            None => side_position(
                *expr,
                left_cols.deep_view(),
                left_sources.deep_view(),
                right_cols.deep_view(),
                right_sources.deep_view(),
            ) is None,
        },
{
    match expr {
        Expression::Ident(name) => {
            if let Some(i) = find_column(left_cols, name) {
                Some((i, false))
            } else {
                match find_column(right_cols, name) {
                    Some(i) => Some((i, true)),
                    None => None,
                }
            }
        },
        Expression::QualifiedIdent { table, field } => {
            if let Some(i) = find_qualified_column(left_cols, left_sources, table, field) {
                Some((i, false))
            } else if let Some(i) = find_qualified_column(right_cols, right_sources, table, field) {
                Some((i, true))
            } else if let Some(i) = find_column(left_cols, field) {
                Some((i, false))
            } else {
                match find_column(right_cols, field) {
                    Some(i) => Some((i, true)),
                    None => None,
                }
            }
        },
        _ => None,
    }
}

/// The column a reference resolves to in one result: a bare name by name,
/// a qualified name by name and table, else by name.
pub open spec fn column_of(
    e: Expression,
    columns: Seq<Seq<char>>,
    sources: Seq<Option<Seq<char>>>,
) -> Option<int> {
    match e {
        Expression::Ident(name) => position_from(columns, name@, 0),
        Expression::QualifiedIdent { table, field } => qualified_position(
            columns,
            sources,
            table@,
            field@,
        ),
        _ => None,
    }
}

/// The column a reference resolves to in one result.
pub fn resolve_col_idx(expr: &Expression, columns: &[String], sources: &[Option<String>]) -> (r:
    Option<usize>)
    ensures
        as_index(r) == column_of(*expr, columns.deep_view(), sources.deep_view()),
{
    match expr {
        Expression::Ident(name) => find_column(columns, name),
        Expression::QualifiedIdent { table, field } => resolve_qualified(columns, sources, table, field),
        _ => None,
    }
}

/// The left and right key columns of an equi-join condition (see
/// `equi_columns`).
pub fn resolve_equi_columns(
    condition: &Expression,
    left_cols: &[String],
    left_sources: &[Option<String>],
    right_cols: &[String],
    right_sources: &[Option<String>],
) -> (r: Option<(usize, usize)>)
    ensures
        match r {
            Some(p) => equi_columns(
                *condition,
                left_cols.deep_view(),
                left_sources.deep_view(),
                right_cols.deep_view(),
                right_sources.deep_view(),
            ) == Some((p.0 as int, p.1 as int)),
            None => equi_columns(
                *condition,
                left_cols.deep_view(),
                left_sources.deep_view(),
                right_cols.deep_view(),
                right_sources.deep_view(),
            ) is None,
        },
{
    match condition {
        Expression::BinaryOp { op: BinaryOp::Eq, left, right } => {
            let li = match find_col_idx(left, left_cols, left_sources, right_cols, right_sources) {
                Some(x) => x,
                None => {
                    return None;
                },
            };
            let ri = match find_col_idx(right, left_cols, left_sources, right_cols, right_sources) {
                Some(x) => x,
                None => {
                    return None;
                },
            };
            if li.1 != ri.1 {
                if li.1 {
                    Some((ri.0, li.0))
                } else {
                    Some((li.0, ri.0))
                }
            } else {
                let l_name = match extract_field_name(left) {
                    Some(n) => n,
                    None => {
                        return None;
                    },
                };
                let r_name = match extract_field_name(right) {
                    Some(n) => n,
                    None => {
                        return None;
                    },
                };
                let l_idx = match find_column(left_cols, l_name) {
                    Some(i) => i,
                    None => {
                        return None;
                    },
                };
                let r_idx = match find_column(right_cols, r_name) {
                    Some(i) => i,
                    None => {
                        return None;
                    },
                };
                Some((l_idx, r_idx))
            }
        },
        _ => None,
    }
}

/// The positions of each group, as integers.
pub open spec fn members_view(m: Seq<Vec<usize>>) -> Seq<Seq<int>> {
    Seq::new(m.len(), |g: int| m[g]@.map_values(|x: usize| x as int))
}

/// The key cell of a row.
fn key_cell(row: &[Value], k: usize) -> (r: Value)
    ensures
        r@ == key_of(row.deep_view(), k as int),
{
    if k < row.len() {
        copy_value(&row[k])
    } else {
        Value::Null
    }
}

/// The first group whose key equals `key`.
fn find_group(keys: &Vec<Value>, key: &Value) -> (r: Option<usize>)
    ensures
        match r {
            Some(g) => g < keys@.len() && val_eq(keys@[g as int]@, key@),
            None => forall|g: int| 0 <= g < keys@.len() ==> !val_eq(#[trigger] keys@[g]@, key@),
        },
{
    for g in 0..keys.len()
        invariant
            forall|h: int| 0 <= h < g ==> !val_eq(#[trigger] keys@[h]@, key@),
    {
        if values_equal(&keys[g], key) {
            return Some(g);
        }
    }
    None
}

/// Groups the build rows by key.
fn group_rows(build: &Vec<Vec<Value>>, bk: usize) -> (r: (Vec<Value>, Vec<Vec<usize>>))
    ensures
        groups_ok(
            build.deep_view(),
            bk as int,
            r.0.deep_view(),
            members_view(r.1@),
            build@.len() as int,
        ),
{
    let ghost rows = build.deep_view();
    let mut keys: Vec<Value> = Vec::new();
    let mut members: Vec<Vec<usize>> = Vec::new();
    assert(keys.deep_view() =~= Seq::<Val>::empty());
    assert(members_view(members@) =~= Seq::<Seq<int>>::empty());
    for n in 0..build.len()
        invariant
            rows == build.deep_view(),
            groups_ok(rows, bk as int, keys.deep_view(), members_view(members@), n as int),
    {
        assert(rows[n as int] == build@[n as int].deep_view());
        let k = key_cell(build[n].as_slice(), bk);
        let ghost kv = keys.deep_view();
        let ghost mv = members_view(members@);
        match find_group(&keys, &k) {
            Some(g) => {
                proof {
                    lemma_group_join(rows, bk as int, kv, mv, n as int, g as int);
                }
                let ghost old_m = members@;
                members[g].push(n);
                assert forall|h: int| 0 <= h < mv.len() implies #[trigger] members_view(members@)[h]
                    =~= mv.update(g as int, mv[g as int].push(n as int))[h] by {
                    if h == g {
                        assert(members@[h]@ == old_m[h]@.push(n));
                    } else {
                        assert(members@[h] == old_m[h]);
                    }
                }
                assert(members_view(members@) =~= mv.update(g as int, mv[g as int].push(n as int)));
            },
            None => {
                proof {
                    lemma_group_new(rows, bk as int, kv, mv, n as int);
                }
                keys.push(k);
                let mut first: Vec<usize> = Vec::new();
                first.push(n);
                let ghost old_m = members@;
                members.push(first);
                assert(keys.deep_view() =~= kv.push(key_of(rows[n as int], bk as int)));
                assert forall|h: int| 0 <= h < mv.len() + 1 implies #[trigger] members_view(members@)[h]
                    =~= mv.push(seq![n as int])[h] by {
                    if h < mv.len() {
                        assert(members@[h] == old_m[h]);
                    } else {
                        assert(members@[h]@ == seq![n]);
                    }
                }
                assert(members_view(members@) =~= mv.push(seq![n as int]));
            },
        }
    }
    (keys, members)
}

/// `n` false flags.
fn all_false(n: usize) -> (r: Vec<bool>)
    ensures
        r@.len() == n,
        forall|i: int| 0 <= i < n ==> !#[trigger] r@[i],
{
    let mut v: Vec<bool> = Vec::new();
    for i in 0..n
        invariant
            v@.len() == i,
            forall|j: int| 0 <= j < i ==> !#[trigger] v@[j],
    {
        v.push(false);
    }
    v
}

/// The matched rows of a hash join, and which build and probe rows found a
/// partner.
fn hash_probe(
    build: &Vec<Vec<Value>>,
    probe: &Vec<Vec<Value>>,
    bk: usize,
    pk: usize,
    build_is_right: bool,
) -> (r: (Vec<Vec<Value>>, Vec<bool>, Vec<bool>))
    ensures
        r.0.deep_view() == hash_matched(
            build.deep_view(),
            probe.deep_view(),
            bk as int,
            pk as int,
            build_is_right,
            probe@.len() as int,
        ),
        r.1@.len() == build@.len(),
        forall|i: int|
            0 <= i < build@.len() ==> #[trigger] r.1@[i] == has_partner(
                build.deep_view()[i],
                bk as int,
                probe.deep_view(),
                pk as int,
            ),
        r.2@.len() == probe@.len(),
        forall|j: int|
            0 <= j < probe@.len() ==> #[trigger] r.2@[j] == has_partner(
                probe.deep_view()[j],
                pk as int,
                build.deep_view(),
                bk as int,
            ),
{
    let ghost brows = build.deep_view();
    let ghost prows = probe.deep_view();
    let (keys, members) = group_rows(build, bk);
    let ghost kv = keys.deep_view();
    let ghost mv = members_view(members@);
    let mut rows: Vec<Vec<Value>> = Vec::new();
    let mut build_matched = all_false(build.len());
    let mut probe_matched = all_false(probe.len());
    assert(rows.deep_view() =~= Seq::<Seq<Val>>::empty());
    for j in 0..probe.len()
        invariant
            brows == build.deep_view(),
            prows == probe.deep_view(),
            kv == keys.deep_view(),
            mv == members_view(members@),
            groups_ok(brows, bk as int, kv, mv, brows.len() as int),
            rows.deep_view() == hash_matched(brows, prows, bk as int, pk as int, build_is_right, j as int),
            build_matched@.len() == brows.len(),
            forall|i: int|
                0 <= i < brows.len() ==> #[trigger] build_matched@[i] == exists|q: int|
                    0 <= q < j && val_eq(key_of(brows[i], bk as int), key_of(#[trigger] prows[q], pk as int)),
            probe_matched@.len() == prows.len(),
            forall|q: int|
                0 <= q < prows.len() ==> #[trigger] probe_matched@[q] == (q < j && has_partner(
                    prows[q],
                    pk as int,
                    brows,
                    bk as int,
                )),
    {
        assert(prows[j as int] == probe@[j as int].deep_view());
        let p = key_cell(probe[j].as_slice(), pk);
        let ghost idxs = matching_indices(brows, bk as int, p@, brows.len() as int);
        let ghost before_rows = rows.deep_view();
        let ghost before_bm = build_matched@;
        proof {
            lemma_matching_bounded(brows, bk as int, p@, brows.len() as int);
            assert forall|i: int| 0 <= i < brows.len() implies #[trigger] idxs.contains(i) == val_eq(
                key_of(brows[i], bk as int),
                p@,
            ) by {
                lemma_matching_member(brows, bk as int, p@, brows.len() as int, i);
            }
        }
        match find_group(&keys, &p) {
            Some(g) => {
                proof {
                    lemma_val_eq_reflexive_sides(kv[g as int], p@);
                    lemma_matching_congruent(brows, bk as int, kv[g as int], p@, brows.len() as int);
                    assert(mv[g as int] == idxs);
                }
                let list = &members[g];
                assert(list@.len() == idxs.len());
                for t in 0..list.len()
                    invariant
                        brows == build.deep_view(),
                        prows == probe.deep_view(),
                        j < prows.len(),
                        list@.len() == idxs.len(),
                        forall|u: int| 0 <= u < idxs.len() ==> #[trigger] list@[u] as int == idxs[u],
                        forall|u: int| 0 <= u < idxs.len() ==> 0 <= #[trigger] idxs[u] < brows.len(),
                        rows.deep_view() == before_rows + joined_with(
                            brows,
                            prows[j as int],
                            idxs.take(t as int),
                            build_is_right,
                        ),
                        build_matched@.len() == brows.len(),
                        forall|i: int|
                            0 <= i < brows.len() ==> #[trigger] build_matched@[i] == (before_bm[i]
                                || idxs.take(t as int).contains(i)),
                {
                    let bi = list[t];
                    assert(bi as int == idxs[t as int]);
                    assert(brows[bi as int] == build@[bi as int].deep_view());
                    let merged = if build_is_right {
                        merge_vals(probe[j].as_slice(), build[bi].as_slice())
                    } else {
                        merge_vals(build[bi].as_slice(), probe[j].as_slice())
                    };
                    let ghost mrow = merged.deep_view();
                    let ghost prev = rows.deep_view();
                    rows.push(merged);
                    assert(rows.deep_view() =~= prev.push(mrow));
                    assert(joined_with(brows, prows[j as int], idxs.take(t + 1), build_is_right)
                        =~= joined_with(brows, prows[j as int], idxs.take(t as int), build_is_right).push(mrow));
                    build_matched.set(bi, true);
                    assert forall|i: int| 0 <= i < brows.len() implies #[trigger] build_matched@[i] == (
                    before_bm[i] || idxs.take(t + 1).contains(i)) by {
                        if idxs.take(t as int).contains(i) {
                            let u = choose|u: int| 0 <= u < t && #[trigger] idxs.take(t as int)[u] == i;
                            assert(idxs.take(t + 1)[u] == i);
                        }
                        if idxs.take(t + 1).contains(i) {
                            let u = choose|u: int| 0 <= u < t + 1 && #[trigger] idxs.take(t + 1)[u] == i;
                            if u < t {
                                assert(idxs.take(t as int)[u] == i);
                            }
                        }
                        if i == bi {
                            assert(idxs.take(t + 1)[t as int] == i);
                        }
                    }
                }
                assert(idxs.take(idxs.len() as int) =~= idxs);
                if list.len() > 0 {
                    probe_matched.set(j, true);
                }
            },
            None => {
                proof {
                    assert forall|i: int| 0 <= i < brows.len() implies !val_eq(
                        #[trigger] key_of(brows[i], bk as int),
                        p@,
                    ) by {
                        if val_eq(key_of(brows[i], bk as int), p@) {
                            lemma_val_eq_reflexive_sides(key_of(brows[i], bk as int), p@);
                            let g = choose|g: int|
                                0 <= g < kv.len() && val_eq(#[trigger] kv[g], key_of(brows[i], bk as int));
                            crate::joins_spec::lemma_val_eq_transitive(kv[g], key_of(brows[i], bk as int), p@);
                        }
                    }
                    lemma_matching_none(brows, bk as int, p@, brows.len() as int);
                    assert(joined_with(brows, prows[j as int], idxs, build_is_right) =~= Seq::<Seq<Val>>::empty());
                    assert(rows.deep_view() =~= before_rows + joined_with(brows, prows[j as int], idxs, build_is_right));
                }
            },
        }
        proof {
            assert(hash_matched(brows, prows, bk as int, pk as int, build_is_right, j + 1) == before_rows
                + joined_with(brows, prows[j as int], idxs, build_is_right));
            assert forall|i: int| 0 <= i < brows.len() implies #[trigger] build_matched@[i] == exists|q: int|
                0 <= q < j + 1 && val_eq(key_of(brows[i], bk as int), key_of(#[trigger] prows[q], pk as int)) by {
                if val_eq(key_of(brows[i], bk as int), key_of(prows[j as int], pk as int)) {
                    assert(idxs.contains(i));
                }
            }
            assert(has_partner(prows[j as int], pk as int, brows, bk as int) == (idxs.len() > 0)) by {
                if idxs.len() > 0 {
                    let i = idxs[0];
                    assert(idxs.contains(i));
                    lemma_val_eq_symmetric(key_of(brows[i], bk as int), p@);
                    assert(val_eq(key_of(prows[j as int], pk as int), key_of(brows[i], bk as int)));
                }
                if has_partner(prows[j as int], pk as int, brows, bk as int) {
                    let i = choose|i: int| 0 <= i < brows.len() && val_eq(key_of(prows[j as int], pk as int), key_of(#[trigger] brows[i], bk as int));
                    lemma_val_eq_symmetric(key_of(brows[i], bk as int), p@);
                    assert(idxs.contains(i));
                    let u = choose|u: int| 0 <= u < idxs.len() && idxs[u] == i;
                }
            }
        }
    }
    proof {
        assert forall|i: int| 0 <= i < brows.len() implies #[trigger] build_matched@[i] == has_partner(
            brows[i],
            bk as int,
            prows,
            pk as int,
        ) by {
            if has_partner(brows[i], bk as int, prows, pk as int) {
                let q = choose|q: int| 0 <= q < prows.len() && val_eq(key_of(brows[i], bk as int), key_of(#[trigger] prows[q], pk as int));
            }
        }
    }
    (rows, build_matched, probe_matched)
}

/// A row of `n` nulls.
fn null_row(n: usize) -> (r: Vec<Value>)
    ensures
        r.deep_view() == nulls(n as nat),
{
    let mut v: Vec<Value> = Vec::new();
    for i in 0..n
        invariant
            v.deep_view() == nulls(i as nat),
    {
        let ghost before = v.deep_view();
        v.push(Value::Null);
        assert(v.deep_view() =~= before.push(Val::Null));
        assert(v.deep_view() =~= nulls((i + 1) as nat));
    }
    v
}

/// Appends the rows of `side` without a partner, padded with nulls.
fn push_unpartnered(
    out: &mut Vec<Vec<Value>>,
    side: &Vec<Vec<Value>>,
    flags: &Vec<bool>,
    width: usize,
    nulls_first: bool,
    Ghost(k): Ghost<int>,
    Ghost(others): Ghost<Seq<Seq<Val>>>,
    Ghost(ok): Ghost<int>,
)
    requires
        flags@.len() == side@.len(),
        forall|i: int|
            0 <= i < side@.len() ==> #[trigger] flags@[i] == has_partner(
                side.deep_view()[i],
                k,
                others,
                ok,
            ),
    ensures
        final(out).deep_view() == old(out).deep_view() + unpartnered(
            side.deep_view(),
            k,
            others,
            ok,
            width as nat,
            nulls_first,
        ),
{
    let ghost start = out.deep_view();
    let ghost sv = side.deep_view();
    assert(sv.take(0) =~= Seq::<Seq<Val>>::empty());
    assert(start =~= start + unpartnered(sv.take(0), k, others, ok, width as nat, nulls_first));
    for i in 0..side.len()
        invariant
            sv == side.deep_view(),
            flags@.len() == sv.len(),
            forall|j: int| 0 <= j < sv.len() ==> #[trigger] flags@[j] == has_partner(sv[j], k, others, ok),
            out.deep_view() == start + unpartnered(sv.take(i as int), k, others, ok, width as nat, nulls_first),
    {
        assert(sv.take(i + 1).drop_last() =~= sv.take(i as int));
        assert(sv.take(i + 1).last() == sv[i as int]);
        assert(sv[i as int] == side@[i as int].deep_view());
        let ghost before = out.deep_view();
        if !flags[i] {
            let pad = null_row(width);
            let row = if nulls_first {
                merge_vals(pad.as_slice(), side[i].as_slice())
            } else {
                merge_vals(side[i].as_slice(), pad.as_slice())
            };
            let ghost rv = row.deep_view();
            out.push(row);
            assert(out.deep_view() =~= before.push(rv));
        }
    }
    assert(sv.take(side.len() as int) =~= sv);
}

/// The result of a join: the left columns then the right ones, the given
/// rows, no elapsed time and no affected rows.
pub open spec fn join_view(left: ResultView, right: ResultView, rows: Seq<Seq<Val>>) -> ResultView {
    ResultView {
        columns: left.columns + right.columns,
        sources: left.sources + right.sources,
        rows: rows,
        elapsed_ms: 0,
        rows_affected: 0,
    }
}

/// A join's outcome: `Ok` with the expected result, or `Err` when none is
/// expected.
pub open spec fn outcome_is(r: Result<QueryResult, RiverError>, expected: Option<ResultView>) -> bool {
    match (r, expected) {
        (Ok(q), Some(v)) => q@ == v,
        (Err(_), None) => true,
        _ => false,
    }
}

/// The expected hash join of two results.
pub open spec fn hash_join_view(
    left: ResultView,
    right: ResultView,
    condition: Expression,
    kind: JoinKind,
) -> Option<ResultView> {
    match equi_columns(condition, left.columns, left.sources, right.columns, right.sources) {
        Some(keys) => Some(
            join_view(
                left,
                right,
                hash_join_rows(
                    left.rows,
                    right.rows,
                    keys.0,
                    keys.1,
                    kind,
                    left.columns.len(),
                    right.columns.len(),
                ),
            ),
        ),
        None => None,
    }
}

/// Joins two results on the key columns of an equi-join condition, grouping
/// the smaller side by key and probing it with the rows of the other; a
/// condition that is not an equi-join is refused.
pub fn hash_join(
    left: QueryResult,
    right: QueryResult,
    condition: &Expression,
    join_kind: JoinKind,
) -> (r: Result<QueryResult, RiverError>)
    ensures
        outcome_is(r, hash_join_view(left@, right@, *condition, join_kind)),
        r matches Err(RiverError::Unsupported(m)) ==> m@ == "hash join requires equi-join condition"@,
{
    let (lk, rk) = match resolve_equi_columns(
        condition,
        left.columns.as_slice(),
        left.column_sources.as_slice(),
        right.columns.as_slice(),
        right.column_sources.as_slice(),
    ) {
        Some(p) => p,
        None => {
            return Err(RiverError::Unsupported(String::from_str("hash join requires equi-join condition")));
        },
    };
    let left_width = left.columns.len();
    let right_width = right.columns.len();
    let (columns, column_sources) = merge_columns(
        left.columns.as_slice(),
        left.column_sources.as_slice(),
        right.columns.as_slice(),
        right.column_sources.as_slice(),
    );
    let ghost lrows = left.rows.deep_view();
    let ghost rrows = right.rows.deep_view();
    let swapped = left.rows.len() > right.rows.len();
    let (mut rows, left_flags, right_flags) = if swapped {
        let (rows, build_flags, probe_flags) = hash_probe(&right.rows, &left.rows, rk, lk, true);
        (rows, probe_flags, build_flags)
    } else {
        let (rows, build_flags, probe_flags) = hash_probe(&left.rows, &right.rows, lk, rk, false);
        (rows, build_flags, probe_flags)
    };
    // The padding of unmatched rows goes by which side was built.
    let (left_pad, right_pad) = if swapped {
        (left_width, right_width)
    } else {
        (right_width, left_width)
    };
    if join_kind == JoinKind::Left || join_kind == JoinKind::Full {
        push_unpartnered(&mut rows, &left.rows, &left_flags, left_pad, false, Ghost(lk as int), Ghost(rrows), Ghost(rk as int));
    }
    if join_kind == JoinKind::Right || join_kind == JoinKind::Full {
        push_unpartnered(&mut rows, &right.rows, &right_flags, right_pad, true, Ghost(rk as int), Ghost(lrows), Ghost(lk as int));
    }
    let result = QueryResult {
        columns,
        column_sources,
        rows,
        elapsed_ms: 0,
        rows_affected: 0,
    };
    assert(result@ == join_view(left@, right@, hash_join_rows(lrows, rrows, lk as int, rk as int, join_kind, left_width as nat, right_width as nat)));
    Ok(result)
}

/// The expected nested-loop join of two results, with `now()` reading
/// `now`: a cross join keeps every pair; any other join keeps the pairs the
/// condition holds for, and is `None` when the condition cannot be
/// evaluated on a pair it reaches.
pub open spec fn nested_join_view(
    left: ResultView,
    right: ResultView,
    condition: Expression,
    kind: JoinKind,
    limit: Option<u64>,
    now: Seq<char>,
) -> Option<ResultView> {
    if kind == JoinKind::Cross {
        Some(join_view(left, right, cross_join_rows(left.rows, right.rows, limit)))
    } else {
        let test = cond_test(
            condition,
            left.columns + right.columns,
            left.sources + right.sources,
            now,
        );
        match nested_join_rows(
            left.rows,
            right.rows,
            test,
            kind,
            limit,
            left.columns.len(),
            right.columns.len(),
        ) {
            Some(rows) => Some(join_view(left, right, rows)),
            None => None,
        }
    }
}

/// The pair `(x, r)` comes before `(li, ri)` in left-major order.
pub open spec fn pair_before(x: int, r: int, li: int, ri: int, right_len: int) -> bool {
    0 <= r < right_len && (x < li || (x == li && r < ri))
}

/// The test holds on a pair.
pub open spec fn holds(test: spec_fn(Seq<Val>, Seq<Val>) -> Option<bool>, l: Seq<Val>, r: Seq<Val>) -> bool {
    test(l, r) == Some(true)
}

/// Each left flag says whether its row matched a pair before `(li, ri)`.
#[verifier::opaque]
pub open spec fn left_flags_ok(
    flags: Seq<bool>,
    lv: Seq<Seq<Val>>,
    rv: Seq<Seq<Val>>,
    test: spec_fn(Seq<Val>, Seq<Val>) -> Option<bool>,
    li: int,
    ri: int,
) -> bool {
    &&& flags.len() == lv.len()
    &&& forall|x: int|
        0 <= x < lv.len() ==> #[trigger] flags[x] == exists|r: int|
            pair_before(x, r, li, ri, rv.len() as int) && holds(test, lv[x], #[trigger] rv[r])
}

/// Each right flag says whether its row matched a pair before `(li, ri)`.
#[verifier::opaque]
pub open spec fn right_flags_ok(
    flags: Seq<bool>,
    lv: Seq<Seq<Val>>,
    rv: Seq<Seq<Val>>,
    test: spec_fn(Seq<Val>, Seq<Val>) -> Option<bool>,
    li: int,
    ri: int,
) -> bool {
    &&& flags.len() == rv.len()
    &&& forall|y: int|
        0 <= y < rv.len() ==> #[trigger] flags[y] == exists|x: int|
            0 <= x < lv.len() && pair_before(x, y, li, ri, rv.len() as int) && holds(
                test,
                #[trigger] lv[x],
                rv[y],
            )
}

proof fn lemma_flags_start(
    lf: Seq<bool>,
    rf: Seq<bool>,
    lv: Seq<Seq<Val>>,
    rv: Seq<Seq<Val>>,
    test: spec_fn(Seq<Val>, Seq<Val>) -> Option<bool>,
)
    requires
        lf.len() == lv.len(),
        rf.len() == rv.len(),
        forall|x: int| 0 <= x < lf.len() ==> !#[trigger] lf[x],
        forall|y: int| 0 <= y < rf.len() ==> !#[trigger] rf[y],
    ensures
        left_flags_ok(lf, lv, rv, test, 0, 0),
        right_flags_ok(rf, lv, rv, test, 0, 0),
{
    reveal(left_flags_ok);
    reveal(right_flags_ok);
}

proof fn lemma_flags_step(
    lf: Seq<bool>,
    rf: Seq<bool>,
    lv: Seq<Seq<Val>>,
    rv: Seq<Seq<Val>>,
    test: spec_fn(Seq<Val>, Seq<Val>) -> Option<bool>,
    li: int,
    ri: int,
    keep: bool,
)
    requires
        left_flags_ok(lf, lv, rv, test, li, ri),
        right_flags_ok(rf, lv, rv, test, li, ri),
        0 <= li < lv.len(),
        0 <= ri < rv.len(),
        test(lv[li], rv[ri]) == Some(keep),
    ensures
        left_flags_ok(if keep { lf.update(li, true) } else { lf }, lv, rv, test, li, ri + 1),
        right_flags_ok(if keep { rf.update(ri, true) } else { rf }, lv, rv, test, li, ri + 1),
{
    reveal(left_flags_ok);
    reveal(right_flags_ok);
    let lf2 = if keep { lf.update(li, true) } else { lf };
    let rf2 = if keep { rf.update(ri, true) } else { rf };
    assert forall|x: int| 0 <= x < lv.len() implies #[trigger] lf2[x] == exists|r: int|
        pair_before(x, r, li, ri + 1, rv.len() as int) && holds(test, lv[x], #[trigger] rv[r]) by {
        if x == li && keep {
            assert(pair_before(x, ri, li, ri + 1, rv.len() as int) && holds(test, lv[x], rv[ri]));
        }
        if exists|r: int| pair_before(x, r, li, ri + 1, rv.len() as int) && holds(test, lv[x], #[trigger] rv[r]) {
            let r = choose|r: int| pair_before(x, r, li, ri + 1, rv.len() as int) && holds(test, lv[x], #[trigger] rv[r]);
            if !(x == li && r == ri) {
                assert(pair_before(x, r, li, ri, rv.len() as int));
            }
        }
        if exists|r: int| pair_before(x, r, li, ri, rv.len() as int) && holds(test, lv[x], #[trigger] rv[r]) {
            let r = choose|r: int| pair_before(x, r, li, ri, rv.len() as int) && holds(test, lv[x], #[trigger] rv[r]);
            assert(pair_before(x, r, li, ri + 1, rv.len() as int));
        }
    }
    assert forall|y: int| 0 <= y < rv.len() implies #[trigger] rf2[y] == exists|x: int|
        0 <= x < lv.len() && pair_before(x, y, li, ri + 1, rv.len() as int) && holds(test, #[trigger] lv[x], rv[y]) by {
        if y == ri && keep {
            assert(pair_before(li, y, li, ri + 1, rv.len() as int) && holds(test, lv[li], rv[y]));
        }
        if exists|x: int| 0 <= x < lv.len() && pair_before(x, y, li, ri + 1, rv.len() as int) && holds(test, #[trigger] lv[x], rv[y]) {
            let x = choose|x: int| 0 <= x < lv.len() && pair_before(x, y, li, ri + 1, rv.len() as int) && holds(test, #[trigger] lv[x], rv[y]);
            if !(x == li && y == ri) {
                assert(pair_before(x, y, li, ri, rv.len() as int));
            }
        }
        if exists|x: int| 0 <= x < lv.len() && pair_before(x, y, li, ri, rv.len() as int) && holds(test, #[trigger] lv[x], rv[y]) {
            let x = choose|x: int| 0 <= x < lv.len() && pair_before(x, y, li, ri, rv.len() as int) && holds(test, #[trigger] lv[x], rv[y]);
            assert(pair_before(x, y, li, ri + 1, rv.len() as int));
        }
    }
}

proof fn lemma_flags_next_row(
    lf: Seq<bool>,
    rf: Seq<bool>,
    lv: Seq<Seq<Val>>,
    rv: Seq<Seq<Val>>,
    test: spec_fn(Seq<Val>, Seq<Val>) -> Option<bool>,
    li: int,
)
    requires
        left_flags_ok(lf, lv, rv, test, li, rv.len() as int),
        right_flags_ok(rf, lv, rv, test, li, rv.len() as int),
    ensures
        left_flags_ok(lf, lv, rv, test, li + 1, 0),
        right_flags_ok(rf, lv, rv, test, li + 1, 0),
{
    reveal(left_flags_ok);
    reveal(right_flags_ok);
    let n = rv.len() as int;
    assert forall|x: int, r: int| pair_before(x, r, li + 1, 0, n) == pair_before(x, r, li, n, n) by {}
}

proof fn lemma_flags_end(
    lf: Seq<bool>,
    rf: Seq<bool>,
    lv: Seq<Seq<Val>>,
    rv: Seq<Seq<Val>>,
    test: spec_fn(Seq<Val>, Seq<Val>) -> Option<bool>,
)
    requires
        left_flags_ok(lf, lv, rv, test, lv.len() as int, 0),
        right_flags_ok(rf, lv, rv, test, lv.len() as int, 0),
    ensures
        lf.len() == lv.len(),
        rf.len() == rv.len(),
        forall|x: int| 0 <= x < lv.len() ==> #[trigger] lf[x] == left_matched(lv, rv, test, x),
        forall|y: int| 0 <= y < rv.len() ==> #[trigger] rf[y] == right_matched(lv, rv, test, y),
{
    reveal(left_flags_ok);
    reveal(right_flags_ok);
    assert forall|x: int| 0 <= x < lv.len() implies #[trigger] lf[x] == left_matched(lv, rv, test, x) by {
        if left_matched(lv, rv, test, x) {
            let r = choose|r: int| 0 <= r < rv.len() && test(lv[x], #[trigger] rv[r]) == Some(true);
            assert(pair_before(x, r, lv.len() as int, 0, rv.len() as int) && holds(test, lv[x], rv[r]));
        }
    }
    assert forall|y: int| 0 <= y < rv.len() implies #[trigger] rf[y] == right_matched(lv, rv, test, y) by {
        if right_matched(lv, rv, test, y) {
            let x = choose|x: int| 0 <= x < lv.len() && test(#[trigger] lv[x], rv[y]) == Some(true);
            assert(pair_before(x, y, lv.len() as int, 0, rv.len() as int) && holds(test, lv[x], rv[y]));
        }
    }
}

/// Appends the left rows whose flag is off, padded with nulls.
fn push_unmatched_left(
    out: &mut Vec<Vec<Value>>,
    left: &Vec<Vec<Value>>,
    flags: &Vec<bool>,
    width: usize,
    Ghost(right): Ghost<Seq<Seq<Val>>>,
    Ghost(test): Ghost<spec_fn(Seq<Val>, Seq<Val>) -> Option<bool>>,
)
    requires
        flags@.len() == left@.len(),
        forall|i: int|
            0 <= i < left@.len() ==> #[trigger] flags@[i] == left_matched(left.deep_view(), right, test, i),
    ensures
        final(out).deep_view() == old(out).deep_view() + unmatched_left(
            left.deep_view(),
            right,
            test,
            width as nat,
            left@.len() as int,
        ),
{
    let ghost start = out.deep_view();
    let ghost lv = left.deep_view();
    for i in 0..left.len()
        invariant
            lv == left.deep_view(),
            flags@.len() == lv.len(),
            forall|j: int| 0 <= j < lv.len() ==> #[trigger] flags@[j] == left_matched(lv, right, test, j),
            out.deep_view() == start + unmatched_left(lv, right, test, width as nat, i as int),
    {
        assert(lv[i as int] == left@[i as int].deep_view());
        let ghost before = out.deep_view();
        if !flags[i] {
            let pad = null_row(width);
            let row = merge_vals(left[i].as_slice(), pad.as_slice());
            let ghost rv = row.deep_view();
            out.push(row);
            assert(out.deep_view() =~= before.push(rv));
        }
    }
}

/// Appends the right rows whose flag is off, preceded by nulls.
fn push_unmatched_right(
    out: &mut Vec<Vec<Value>>,
    right: &Vec<Vec<Value>>,
    flags: &Vec<bool>,
    width: usize,
    Ghost(left): Ghost<Seq<Seq<Val>>>,
    Ghost(test): Ghost<spec_fn(Seq<Val>, Seq<Val>) -> Option<bool>>,
)
    requires
        flags@.len() == right@.len(),
        forall|i: int|
            0 <= i < right@.len() ==> #[trigger] flags@[i] == right_matched(left, right.deep_view(), test, i),
    ensures
        final(out).deep_view() == old(out).deep_view() + unmatched_right(
            left,
            right.deep_view(),
            test,
            width as nat,
            right@.len() as int,
        ),
{
    let ghost start = out.deep_view();
    let ghost rv = right.deep_view();
    for i in 0..right.len()
        invariant
            rv == right.deep_view(),
            flags@.len() == rv.len(),
            forall|j: int| 0 <= j < rv.len() ==> #[trigger] flags@[j] == right_matched(left, rv, test, j),
            out.deep_view() == start + unmatched_right(left, rv, test, width as nat, i as int),
    {
        assert(rv[i as int] == right@[i as int].deep_view());
        let ghost before = out.deep_view();
        if !flags[i] {
            let pad = null_row(width);
            let row = merge_vals(pad.as_slice(), right[i].as_slice());
            let ghost v = row.deep_view();
            out.push(row);
            assert(out.deep_view() =~= before.push(v));
        }
    }
}

/// The error of a join whose condition needs a floating-point computation.
fn float_condition_error() -> (r: RiverError)
    ensures
        r matches RiverError::Unsupported(m) && m@ == "join condition needs a floating-point computation"@,
{
    RiverError::Unsupported(String::from_str("join condition needs a floating-point computation"))
}

/// One step of a scan: the pair `(li, ri)` tested with outcome `keep`.
proof fn lemma_scan_step(
    lv: Seq<Seq<Val>>,
    rv: Seq<Seq<Val>>,
    test: spec_fn(Seq<Val>, Seq<Val>) -> Option<bool>,
    limit: Option<u64>,
    li: int,
    ri: int,
    rows: Seq<Seq<Val>>,
    keep: bool,
)
    requires
        0 <= li < lv.len(),
        0 <= ri < rv.len(),
        test(lv[li], rv[ri]) == Some(keep),
    ensures
        ({
            let kept = if keep {
                rows.push(lv[li] + rv[ri])
            } else {
                rows
            };
            scan_pairs(lv, rv, test, limit, li, ri, rows) == if limit_reached(limit, kept.len()) {
                Scan::Limited(kept)
            } else {
                scan_pairs(lv, rv, test, limit, li, ri + 1, kept)
            }
        }),
{
}

/// Tests one pair of rows: the condition on the joined row, or `true` for
/// a cross join.
fn test_pair(
    merged: &Vec<Value>,
    condition: &Expression,
    columns: &Vec<String>,
    column_sources: &Vec<Option<String>>,
    now: &str,
    is_cross: bool,
    Ghost(test): Ghost<spec_fn(Seq<Val>, Seq<Val>) -> Option<bool>>,
    Ghost(l): Ghost<Seq<Val>>,
    Ghost(r): Ghost<Seq<Val>>,
) -> (res: Option<bool>)
    requires
        merged.deep_view() == l + r,
        test == if is_cross {
            every_pair()
        } else {
            cond_test(*condition, columns.deep_view(), column_sources.deep_view(), now@)
        },
    ensures
        res == test(l, r),
{
    if is_cross {
        Some(true)
    } else {
        let cs = columns.as_slice();
        let ss = column_sources.as_slice();
        let ms = merged.as_slice();
        let res = eval_expr_bool_at(condition, cs, ss, ms, now);
        proof {
            reveal(pair_test);
        }
        assert(env_of(cs, ss, ms, now@) == EvalEnv {
            columns: columns.deep_view(),
            sources: column_sources.deep_view(),
            row: l + r,
            now: now@,
        });
        res
    }
}

/// How the scan of one left row ended.
enum RowOutcome {
    /// Every right row was tested.
    Next,
    /// The kept rows reached the limit.
    Limited,
    /// The condition could not be evaluated on a pair.
    Stuck,
}

/// Tests left row `li` against every right row, in order, keeping the
/// matches and setting the flags of both rows of each match.
#[verifier::rlimit(40)]
fn scan_row(
    rows: &mut Vec<Vec<Value>>,
    left_flags: &mut Vec<bool>,
    right_flags: &mut Vec<bool>,
    left_row: &Vec<Value>,
    right_rows: &Vec<Vec<Value>>,
    condition: &Expression,
    columns: &Vec<String>,
    column_sources: &Vec<Option<String>>,
    now: &str,
    is_cross: bool,
    limit: Option<u64>,
    li: usize,
    Ghost(lv): Ghost<Seq<Seq<Val>>>,
    Ghost(test): Ghost<spec_fn(Seq<Val>, Seq<Val>) -> Option<bool>>,
    Ghost(whole): Ghost<Scan>,
) -> (res: RowOutcome)
    requires
        li < lv.len(),
        lv[li as int] == left_row.deep_view(),
        whole == scan_pairs(lv, right_rows.deep_view(), test, limit, li as int, 0, old(rows).deep_view()),
        old(left_flags)@.len() == lv.len(),
        old(right_flags)@.len() == right_rows@.len(),
        left_flags_ok(old(left_flags)@, lv, right_rows.deep_view(), test, li as int, 0),
        right_flags_ok(old(right_flags)@, lv, right_rows.deep_view(), test, li as int, 0),
        test == if is_cross {
            every_pair()
        } else {
            cond_test(*condition, columns.deep_view(), column_sources.deep_view(), now@)
        },
    ensures
        final(left_flags)@.len() == lv.len(),
        final(right_flags)@.len() == right_rows@.len(),
        match res {
            RowOutcome::Next => {
                &&& whole == scan_pairs(lv, right_rows.deep_view(), test, limit, li + 1, 0, final(rows).deep_view())
                &&& left_flags_ok(final(left_flags)@, lv, right_rows.deep_view(), test, li + 1, 0)
                &&& right_flags_ok(final(right_flags)@, lv, right_rows.deep_view(), test, li + 1, 0)
            },
            RowOutcome::Limited => whole == Scan::Limited(final(rows).deep_view()),
            RowOutcome::Stuck => whole == Scan::Stuck && !is_cross,
        },
{
    let ghost rv = right_rows.deep_view();
    let mut ri: usize = 0;
    while ri < right_rows.len()
        invariant
            rv == right_rows.deep_view(),
            li < lv.len(),
            lv[li as int] == left_row.deep_view(),
            ri <= rv.len(),
            whole == scan_pairs(lv, rv, test, limit, li as int, ri as int, rows.deep_view()),
            left_flags@.len() == lv.len(),
            right_flags@.len() == rv.len(),
            left_flags_ok(left_flags@, lv, rv, test, li as int, ri as int),
            right_flags_ok(right_flags@, lv, rv, test, li as int, ri as int),
            test == if is_cross {
                every_pair()
            } else {
                cond_test(*condition, columns.deep_view(), column_sources.deep_view(), now@)
            },
        decreases rv.len() - ri,
    {
        assert(rv[ri as int] == right_rows@[ri as int].deep_view());
        let merged = merge_vals(left_row.as_slice(), right_rows[ri].as_slice());
        let keep: bool = match test_pair(
            &merged,
            condition,
            columns,
            column_sources,
            now,
            is_cross,
            Ghost(test),
            Ghost(lv[li as int]),
            Ghost(rv[ri as int]),
        ) {
            Some(b) => b,
            None => {
                return RowOutcome::Stuck;
            },
        };
        proof {
            lemma_flags_step(left_flags@, right_flags@, lv, rv, test, li as int, ri as int, keep);
            lemma_scan_step(lv, rv, test, limit, li as int, ri as int, rows.deep_view(), keep);
        }
        let ghost before = rows.deep_view();
        if keep {
            let ghost mv = merged.deep_view();
            rows.push(merged);
            assert(rows.deep_view() =~= before.push(mv));
            left_flags.set(li, true);
            right_flags.set(ri, true);
        }
        let reached = match limit {
            Some(lim) => rows.len() as u64 >= lim,
            None => false,
        };
        if reached {
            return RowOutcome::Limited;
        }
        ri = ri + 1;
    }
    proof {
        lemma_flags_next_row(left_flags@, right_flags@, lv, rv, test, li as int);
    }
    RowOutcome::Next
}

/// Joins two results by testing every pair of rows, left-major, with
/// `now()` reading `now`; stops as soon as the kept rows reach `limit`.
#[verifier::rlimit(40)]
pub fn nested_loop_join_at(
    left: QueryResult,
    right: QueryResult,
    condition: &Expression,
    join_kind: JoinKind,
    limit: Option<u64>,
    now: &str,
) -> (r: Result<QueryResult, RiverError>)
    ensures
        outcome_is(r, nested_join_view(left@, right@, *condition, join_kind, limit, now@)),
        r matches Err(RiverError::Unsupported(m)) ==> m@
            == "join condition needs a floating-point computation"@,
{
    let (columns, column_sources) = merge_columns(
        left.columns.as_slice(),
        left.column_sources.as_slice(),
        right.columns.as_slice(),
        right.column_sources.as_slice(),
    );
    let left_width = left.columns.len();
    let right_width = right.columns.len();
    let is_cross = join_kind == JoinKind::Cross;
    let ghost lv = left.rows.deep_view();
    let ghost rv = right.rows.deep_view();
    let ghost test = if is_cross {
        every_pair()
    } else {
        cond_test(*condition, columns.deep_view(), column_sources.deep_view(), now@)
    };
    let ghost whole = scan_pairs(lv, rv, test, limit, 0, 0, Seq::empty());
    let mut rows: Vec<Vec<Value>> = Vec::new();
    let mut left_flags = all_false(left.rows.len());
    let mut right_flags = all_false(right.rows.len());
    assert(rows.deep_view() =~= Seq::<Seq<Val>>::empty());
    proof {
        lemma_flags_start(left_flags@, right_flags@, lv, rv, test);
    }
    let mut li: usize = 0;
    while li < left.rows.len()
        invariant
            lv == left.rows.deep_view(),
            rv == right.rows.deep_view(),
            li <= lv.len(),
            whole == scan_pairs(lv, rv, test, limit, 0, 0, Seq::empty()),
            whole == scan_pairs(lv, rv, test, limit, li as int, 0, rows.deep_view()),
            left_flags@.len() == lv.len(),
            right_flags@.len() == rv.len(),
            left_flags_ok(left_flags@, lv, rv, test, li as int, 0),
            right_flags_ok(right_flags@, lv, rv, test, li as int, 0),
            is_cross == (join_kind == JoinKind::Cross),
            columns.deep_view() == left@.columns + right@.columns,
            column_sources.deep_view() == left@.sources + right@.sources,
            test == if is_cross {
                every_pair()
            } else {
                cond_test(*condition, columns.deep_view(), column_sources.deep_view(), now@)
            },
        decreases lv.len() - li,
    {
        assert(lv[li as int] == left.rows@[li as int].deep_view());
        let outcome = scan_row(
            &mut rows,
            &mut left_flags,
            &mut right_flags,
            &left.rows[li],
            &right.rows,
            condition,
            &columns,
            &column_sources,
            now,
            is_cross,
            limit,
            li,
            Ghost(lv),
            Ghost(test),
            Ghost(whole),
        );
        match outcome {
            RowOutcome::Next => {},
            RowOutcome::Limited => {
                proof {
                    if is_cross {
                        assert(cross_join_rows(lv, rv, limit) == rows.deep_view());
                    } else {
                        assert(nested_join_rows(lv, rv, test, join_kind, limit, left_width as nat, right_width as nat) == Some(rows.deep_view()));
                    }
                }
                let result = QueryResult {
                    columns,
                    column_sources,
                    rows,
                    elapsed_ms: 0,
                    rows_affected: 0,
                };
                return Ok(result);
            },
            RowOutcome::Stuck => {
                assert(!is_cross);
                assert(nested_join_view(left@, right@, *condition, join_kind, limit, now@) is None);
                return Err(float_condition_error());
            },
        }
        li = li + 1;
    }
    assert(whole == Scan::Finished(rows.deep_view()));
    if !is_cross {
        proof {
            lemma_flags_end(left_flags@, right_flags@, lv, rv, test);
        }
        if join_kind == JoinKind::Left || join_kind == JoinKind::Full {
            push_unmatched_left(&mut rows, &left.rows, &left_flags, right_width, Ghost(rv), Ghost(test));
        }
        if join_kind == JoinKind::Right || join_kind == JoinKind::Full {
            push_unmatched_right(&mut rows, &right.rows, &right_flags, left_width, Ghost(lv), Ghost(test));
        }
        assert(nested_join_rows(lv, rv, test, join_kind, limit, left_width as nat, right_width as nat) == Some(rows.deep_view()));
    } else {
        assert(cross_join_rows(lv, rv, limit) == rows.deep_view());
    }
    let result = QueryResult {
        columns,
        column_sources,
        rows,
        elapsed_ms: 0,
        rows_affected: 0,
    };
    Ok(result)
}

/// Joins two results by testing every pair of rows, left-major; `now()` in
/// the condition reads the clock once for the whole join.
pub fn nested_loop_join(
    left: QueryResult,
    right: QueryResult,
    condition: &Expression,
    join_kind: JoinKind,
    limit: Option<u64>,
) -> (r: Result<QueryResult, RiverError>)
    ensures
        exists|now: Seq<char>| is_timestamp(now) && outcome_is(r, #[trigger] nested_join_view(left@, right@, *condition, join_kind, limit, now)),
        r matches Err(RiverError::Unsupported(m)) ==> m@
            == "join condition needs a floating-point computation"@,
{
    let ghost lview = left@;
    let ghost rview = right@;
    let now = now_text();
    let r = nested_loop_join_at(left, right, condition, join_kind, limit, now.as_str());
    assert(outcome_is(r, nested_join_view(lview, rview, *condition, join_kind, limit, now@)));
    r
}

/// Whether a join runs as a hash join: the strategy allows it and the
/// condition is an equality of one column from each side.
pub open spec fn uses_hash(
    left: ResultView,
    right: ResultView,
    condition: Expression,
    strategy: JoinStrategy,
) -> bool {
    (strategy == JoinStrategy::Hash || strategy == JoinStrategy::Auto) && equi_columns(
        condition,
        left.columns,
        left.sources,
        right.columns,
        right.sources,
    ) is Some
}

/// Joins two results: by hash where the strategy allows it and the
/// condition is an equi-join, by testing every pair otherwise.
pub fn join_results(
    left: QueryResult,
    right: QueryResult,
    condition: &Expression,
    strategy: &JoinStrategy,
    join_kind: JoinKind,
    limit: Option<u64>,
) -> (r: Result<QueryResult, RiverError>)
    ensures
        uses_hash(left@, right@, *condition, *strategy) ==> outcome_is(
            r,
            hash_join_view(left@, right@, *condition, join_kind),
        ),
        !uses_hash(left@, right@, *condition, *strategy) ==> exists|now: Seq<char>|
            is_timestamp(now) && outcome_is(r, #[trigger] nested_join_view(left@, right@, *condition, join_kind, limit, now)),
        uses_hash(left@, right@, *condition, *strategy) ==> r is Ok,
        r matches Err(RiverError::Unsupported(m)) ==> m@
            == "join condition needs a floating-point computation"@,
{
    let allows = match strategy {
        JoinStrategy::Hash => true,
        JoinStrategy::Auto => true,
        JoinStrategy::NestedLoop => false,
    };
    let can_hash = allows && resolve_equi_columns(
        condition,
        left.columns.as_slice(),
        left.column_sources.as_slice(),
        right.columns.as_slice(),
        right.column_sources.as_slice(),
    ).is_some();
    if can_hash {
        hash_join(left, right, condition, join_kind)
    } else {
        nested_loop_join(left, right, condition, join_kind, limit)
    }
}

} // verus!
