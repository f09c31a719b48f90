//! What a join produces.

use vstd::prelude::*;
use crate::ast::{BinaryOp, Expression};
use crate::expr_spec::{EvalEnv, eval_bool, position_from, qualified_position_from};
use crate::value::{Val, val_eq};

verus! {

/// The kinds of join.
#[derive(Debug, Clone, Copy, PartialEq, Eq, Structural)]
pub enum JoinKind {
    Inner,
    Left,
    Right,
    Full,
    Cross,
}

/// How the planner asks for a join to be run.
#[derive(Debug, Clone, Copy, PartialEq, Eq, Structural)]
pub enum JoinStrategy {
    Auto,
    Hash,
    NestedLoop,
}

pub open spec fn keeps_left(kind: JoinKind) -> bool {
    kind == JoinKind::Left || kind == JoinKind::Full
}

pub open spec fn keeps_right(kind: JoinKind) -> bool {
    kind == JoinKind::Right || kind == JoinKind::Full
}

/// `n` null cells.
pub open spec fn nulls(n: nat) -> Seq<Val> {
    Seq::new(n, |i: int| Val::Null)
}

/// The name an identifier refers to.
pub open spec fn field_name(e: Expression) -> Option<Seq<char>> {
    match e {
        Expression::Ident(n) => Some(n@),
        Expression::QualifiedIdent { table: _, field } => Some(field@),
        _ => None,
    }
}

/// Which side a column reference resolves to, and its position there
/// (`true` for the right side): a bare name on the left first, then on the
/// right; a qualified name by name and table on the left, then on the
/// right, then by name alone on the left, then on the right.
pub open spec fn side_position(
    e: Expression,
    left_cols: Seq<Seq<char>>,
    left_sources: Seq<Option<Seq<char>>>,
    right_cols: Seq<Seq<char>>,
    right_sources: Seq<Option<Seq<char>>>,
) -> Option<(int, bool)> {
    match e {
        Expression::Ident(name) => match position_from(left_cols, name@, 0) {
            Some(i) => Some((i, false)),
            None => match position_from(right_cols, name@, 0) {
                Some(i) => Some((i, true)),
                None => None,
            },
        },
        Expression::QualifiedIdent { table, field } => match qualified_position_from(
            left_cols,
            left_sources,
            table@,
            field@,
            0,
        ) {
            Some(i) => Some((i, false)),
            None => match qualified_position_from(right_cols, right_sources, table@, field@, 0) {
                Some(i) => Some((i, true)),
                None => match position_from(left_cols, field@, 0) {
                    Some(i) => Some((i, false)),
                    None => match position_from(right_cols, field@, 0) {
                        Some(i) => Some((i, true)),
                        None => None,
                    },
                },
            },
        },
        _ => None,
    }
}

/// The key columns of an equi-join condition `a = b`: the left key and the
/// right key. When both sides of `=` resolve to the same side, each name is
/// looked up by name in its own side (the left operand on the left).
pub open spec fn equi_columns(
    cond: Expression,
    left_cols: Seq<Seq<char>>,
    left_sources: Seq<Option<Seq<char>>>,
    right_cols: Seq<Seq<char>>,
    right_sources: Seq<Option<Seq<char>>>,
) -> Option<(int, int)> {
    match cond {
        Expression::BinaryOp { op: BinaryOp::Eq, left, right } => {
            match (
                side_position(*left, left_cols, left_sources, right_cols, right_sources),
                side_position(*right, left_cols, left_sources, right_cols, right_sources),
            ) {
                (Some(li), Some(ri)) => if li.1 != ri.1 {
                    if li.1 {
                        Some((ri.0, li.0))
                    } else {
                        Some((li.0, ri.0))
                    }
                } else {
                    match (field_name(*left), field_name(*right)) {
                        (Some(ln), Some(rn)) => match (
                            position_from(left_cols, ln, 0),
                            position_from(right_cols, rn, 0),
                        ) {
                            (Some(l), Some(r)) => Some((l, r)),
                            _ => None,
                        },
                        _ => None,
                    }
                },
                _ => None,
            }
        },
        _ => None,
    }
}

/// The key cell of a row: the cell at `k`, `Null` past the row's end.
pub open spec fn key_of(row: Seq<Val>, k: int) -> Val {
    if 0 <= k < row.len() {
        row[k]
    } else {
        Val::Null
    }
}

/// The positions below `n`, ascending, of the rows whose key equals `key`.
pub open spec fn matching_indices(rows: Seq<Seq<Val>>, k: int, key: Val, n: int) -> Seq<int>
    decreases n,
{
    if n <= 0 {
        Seq::empty()
    } else {
        let before = matching_indices(rows, k, key, n - 1);
        if val_eq(key_of(rows[n - 1], k), key) {
            before.push(n - 1)
        } else {
            before
        }
    }
}

/// The joined rows of one probe row with the build rows at `idxs`; the left
/// row always comes first.
pub open spec fn joined_with(
    build: Seq<Seq<Val>>,
    probe_row: Seq<Val>,
    idxs: Seq<int>,
    build_is_right: bool,
) -> Seq<Seq<Val>> {
    Seq::new(
        idxs.len(),
        |t: int|
            if build_is_right {
                probe_row + build[idxs[t]]
            } else {
                build[idxs[t]] + probe_row
            },
    )
}

/// The matched rows of a hash join over the first `m` probe rows: for each
/// probe row in order, the build rows with an equal key in order.
pub open spec fn hash_matched(
    build: Seq<Seq<Val>>,
    probe: Seq<Seq<Val>>,
    bk: int,
    pk: int,
    build_is_right: bool,
    m: int,
) -> Seq<Seq<Val>>
    decreases m,
{
    if m <= 0 {
        Seq::empty()
    } else {
        hash_matched(build, probe, bk, pk, build_is_right, m - 1) + joined_with(
            build,
            probe[m - 1],
            matching_indices(build, bk, key_of(probe[m - 1], pk), build.len() as int),
            build_is_right,
        )
    }
}

/// Some row of `others` has a key equal to this row's key.
pub open spec fn has_partner(row: Seq<Val>, k: int, others: Seq<Seq<Val>>, ok: int) -> bool {
    exists|j: int| 0 <= j < others.len() && val_eq(key_of(row, k), key_of(#[trigger] others[j], ok))
}

/// The rows of `rows` without a key partner in `others`, each followed by
/// `width` nulls (or preceded, when `nulls_first`).
pub open spec fn unpartnered(
    rows: Seq<Seq<Val>>,
    k: int,
    others: Seq<Seq<Val>>,
    ok: int,
    width: nat,
    nulls_first: bool,
) -> Seq<Seq<Val>>
    decreases rows.len(),
{
    if rows.len() == 0 {
        Seq::empty()
    } else {
        let before = unpartnered(rows.drop_last(), k, others, ok, width, nulls_first);
        if has_partner(rows.last(), k, others, ok) {
            before
        } else if nulls_first {
            before.push(nulls(width) + rows.last())
        } else {
            before.push(rows.last() + nulls(width))
        }
    }
}

/// The rows of a hash join on left key `lk` and right key `rk`. The smaller
/// side (the left on a tie) is the build side and the other is probed in
/// order; then the unmatched left rows followed by nulls (left and full
/// joins), then the unmatched right rows preceded by nulls (right and full
/// joins). The number of nulls goes by which side was built: as many as
/// the other side has columns when the left side is built, as many as the
/// row's own side has columns when the right side is built.
pub open spec fn hash_join_rows(
    left: Seq<Seq<Val>>,
    right: Seq<Seq<Val>>,
    lk: int,
    rk: int,
    kind: JoinKind,
    left_width: nat,
    right_width: nat,
) -> Seq<Seq<Val>> {
    let matched = if left.len() <= right.len() {
        hash_matched(left, right, lk, rk, false, right.len() as int)
    } else {
        hash_matched(right, left, rk, lk, true, left.len() as int)
    };
    let (left_pad, right_pad) = if left.len() <= right.len() {
        (right_width, left_width)
    } else {
        (left_width, right_width)
    };
    let with_left = if keeps_left(kind) {
        matched + unpartnered(left, lk, right, rk, left_pad, false)
    } else {
        matched
    };
    if keeps_right(kind) {
        with_left + unpartnered(right, rk, left, lk, right_pad, true)
    } else {
        with_left
    }
}

/// A limit is reached once the rows number at least it.
pub open spec fn limit_reached(limit: Option<u64>, n: nat) -> bool {
    match limit {
        Some(lim) => n >= lim,
        None => false,
    }
}

/// The condition of a nested-loop join on one pair of rows.
#[verifier::opaque]
pub open spec fn pair_test(
    cond: Expression,
    columns: Seq<Seq<char>>,
    sources: Seq<Option<Seq<char>>>,
    now: Seq<char>,
    l: Seq<Val>,
    r: Seq<Val>,
) -> Option<bool> {
    eval_bool(cond, EvalEnv { columns: columns, sources: sources, row: l + r, now: now })
}

/// The condition of a join as a test on pairs of rows.
pub open spec fn cond_test(
    cond: Expression,
    columns: Seq<Seq<char>>,
    sources: Seq<Option<Seq<char>>>,
    now: Seq<char>,
) -> spec_fn(Seq<Val>, Seq<Val>) -> Option<bool> {
    |l: Seq<Val>, r: Seq<Val>| pair_test(cond, columns, sources, now, l, r)
}

/// The test of a cross join: every pair matches.
pub open spec fn every_pair() -> spec_fn(Seq<Val>, Seq<Val>) -> Option<bool> {
    |l: Seq<Val>, r: Seq<Val>| Some(true)
}

/// How a scan over the pairs ended.
pub ghost enum Scan {
    /// Every pair was tested; the rows that matched.
    Finished(Seq<Seq<Val>>),
    /// The rows reached the limit after a test.
    Limited(Seq<Seq<Val>>),
    /// A test could not be evaluated.
    Stuck,
}

/// Tests the pairs from `(li, ri)` on, left-major, keeping those that
/// match, and stopping as soon as the kept rows reach the limit.
pub open spec fn scan_pairs(
    left: Seq<Seq<Val>>,
    right: Seq<Seq<Val>>,
    test: spec_fn(Seq<Val>, Seq<Val>) -> Option<bool>,
    limit: Option<u64>,
    li: int,
    ri: int,
    rows: Seq<Seq<Val>>,
) -> Scan
    decreases left.len() - li, right.len() - ri,
{
    if li < 0 || li >= left.len() {
        Scan::Finished(rows)
    } else if ri < 0 || ri >= right.len() {
        scan_pairs(left, right, test, limit, li + 1, 0, rows)
    } else {
        match test(left[li], right[ri]) {
            None => Scan::Stuck,
            Some(b) => {
                let kept = if b {
                    rows.push(left[li] + right[ri])
                } else {
                    rows
                };
                if limit_reached(limit, kept.len()) {
                    Scan::Limited(kept)
                } else {
                    scan_pairs(left, right, test, limit, li, ri + 1, kept)
                }
            },
        }
    }
}

/// The rows a scan kept.
pub open spec fn scanned_rows(s: Scan) -> Seq<Seq<Val>> {
    match s {
        Scan::Finished(rows) => rows,
        Scan::Limited(rows) => rows,
        Scan::Stuck => Seq::empty(),
    }
}

/// The rows of a cross join: every pair, left-major, stopping at the first
/// row that reaches the limit.
pub open spec fn cross_join_rows(left: Seq<Seq<Val>>, right: Seq<Seq<Val>>, limit: Option<u64>) -> Seq<
    Seq<Val>,
> {
    scanned_rows(scan_pairs(left, right, every_pair(), limit, 0, 0, Seq::empty()))
}

/// Left row `li` matched some right row.
pub open spec fn left_matched(
    left: Seq<Seq<Val>>,
    right: Seq<Seq<Val>>,
    test: spec_fn(Seq<Val>, Seq<Val>) -> Option<bool>,
    li: int,
) -> bool {
    exists|ri: int| 0 <= ri < right.len() && test(left[li], #[trigger] right[ri]) == Some(true)
}

/// Right row `ri` matched some left row.
pub open spec fn right_matched(
    left: Seq<Seq<Val>>,
    right: Seq<Seq<Val>>,
    test: spec_fn(Seq<Val>, Seq<Val>) -> Option<bool>,
    ri: int,
) -> bool {
    exists|li: int| 0 <= li < left.len() && test(#[trigger] left[li], right[ri]) == Some(true)
}

/// The unmatched left rows among the first `n`, padded with nulls.
pub open spec fn unmatched_left(
    left: Seq<Seq<Val>>,
    right: Seq<Seq<Val>>,
    test: spec_fn(Seq<Val>, Seq<Val>) -> Option<bool>,
    width: nat,
    n: int,
) -> Seq<Seq<Val>>
    decreases n,
{
    if n <= 0 {
        Seq::empty()
    } else {
        let before = unmatched_left(left, right, test, width, n - 1);
        if left_matched(left, right, test, n - 1) {
            before
        } else {
            before.push(left[n - 1] + nulls(width))
        }
    }
}

/// The unmatched right rows among the first `n`, preceded by nulls.
pub open spec fn unmatched_right(
    left: Seq<Seq<Val>>,
    right: Seq<Seq<Val>>,
    test: spec_fn(Seq<Val>, Seq<Val>) -> Option<bool>,
    width: nat,
    n: int,
) -> Seq<Seq<Val>>
    decreases n,
{
    if n <= 0 {
        Seq::empty()
    } else {
        let before = unmatched_right(left, right, test, width, n - 1);
        if right_matched(left, right, test, n - 1) {
            before
        } else {
            before.push(nulls(width) + right[n - 1])
        }
    }
}

/// The rows of a nested-loop join that is not a cross join, or `None` when
/// a test could not be evaluated: the matching pairs left-major, stopping
/// when the limit is reached; if the scan finished, then the unmatched left
/// rows (left and full joins) and the unmatched right rows (right and full
/// joins).
pub open spec fn nested_join_rows(
    left: Seq<Seq<Val>>,
    right: Seq<Seq<Val>>,
    test: spec_fn(Seq<Val>, Seq<Val>) -> Option<bool>,
    kind: JoinKind,
    limit: Option<u64>,
    left_width: nat,
    right_width: nat,
) -> Option<Seq<Seq<Val>>> {
    match scan_pairs(left, right, test, limit, 0, 0, Seq::empty()) {
        Scan::Stuck => None,
        Scan::Limited(rows) => Some(rows),
        Scan::Finished(rows) => {
            let with_left = if keeps_left(kind) {
                rows + unmatched_left(left, right, test, right_width, left.len() as int)
            } else {
                rows
            };
            Some(
                if keeps_right(kind) {
                    with_left + unmatched_right(left, right, test, left_width, right.len() as int)
                } else {
                    with_left
                },
            )
        },
    }
}

/// Cell equality is symmetric.
pub proof fn lemma_val_eq_symmetric(a: Val, b: Val)
    ensures
        val_eq(a, b) == val_eq(b, a),
{
}

/// Cell equality is transitive.
pub proof fn lemma_val_eq_transitive(a: Val, b: Val, c: Val)
    requires
        val_eq(a, b),
        val_eq(b, c),
    ensures
        val_eq(a, c),
{
}

/// A cell equal to something is equal to itself (only NaN is not).
pub proof fn lemma_val_eq_reflexive_sides(a: Val, b: Val)
    requires
        val_eq(a, b),
    ensures
        val_eq(a, a),
        val_eq(b, b),
{
}

/// Membership in `matching_indices`.
pub proof fn lemma_matching_member(rows: Seq<Seq<Val>>, k: int, key: Val, n: int, i: int)
    ensures
        matching_indices(rows, k, key, n).contains(i) <==> (0 <= i < n && val_eq(
            key_of(rows[i], k),
            key,
        )),
    decreases n,
{
    if n > 0 {
        lemma_matching_member(rows, k, key, n - 1, i);
        let before = matching_indices(rows, k, key, n - 1);
        if val_eq(key_of(rows[n - 1], k), key) {
            let after = before.push(n - 1);
            assert(after.contains(i) <==> (before.contains(i) || i == n - 1)) by {
                if after.contains(i) {
                    let t = choose|t: int| 0 <= t < after.len() && #[trigger] after[t] == i;
                    if t < before.len() {
                        assert(before[t] == i);
                    }
                }
                if before.contains(i) {
                    let t = choose|t: int| 0 <= t < before.len() && #[trigger] before[t] == i;
                    assert(after[t] == i);
                }
                if i == n - 1 {
                    assert(after[before.len() as int] == i);
                }
            }
        }
    }
}

/// The positions of all values of `matching_indices` lie below `n`.
pub proof fn lemma_matching_bounded(rows: Seq<Seq<Val>>, k: int, key: Val, n: int)
    ensures
        forall|t: int|
            0 <= t < matching_indices(rows, k, key, n).len() ==> 0 <= #[trigger] matching_indices(
                rows,
                k,
                key,
                n,
            )[t] < n,
{
    assert forall|t: int| 0 <= t < matching_indices(rows, k, key, n).len() implies 0
        <= #[trigger] matching_indices(rows, k, key, n)[t] < n by {
        let i = matching_indices(rows, k, key, n)[t];
        assert(matching_indices(rows, k, key, n).contains(i));
        lemma_matching_member(rows, k, key, n, i);
    }
}

/// Equal keys match the same rows.
pub proof fn lemma_matching_congruent(rows: Seq<Seq<Val>>, k: int, a: Val, b: Val, n: int)
    requires
        val_eq(a, b),
    ensures
        matching_indices(rows, k, a, n) == matching_indices(rows, k, b, n),
    decreases n,
{
    if n > 0 {
        lemma_matching_congruent(rows, k, a, b, n - 1);
        let c = key_of(rows[n - 1], k);
        if val_eq(c, a) {
            lemma_val_eq_transitive(c, a, b);
        }
        if val_eq(c, b) {
            lemma_val_eq_symmetric(a, b);
            lemma_val_eq_transitive(c, b, a);
        }
    }
}

/// No row matches: no positions.
pub proof fn lemma_matching_none(rows: Seq<Seq<Val>>, k: int, key: Val, n: int)
    requires
        forall|i: int| 0 <= i < n ==> !val_eq(#[trigger] key_of(rows[i], k), key),
    ensures
        matching_indices(rows, k, key, n).len() == 0,
{
    let m = matching_indices(rows, k, key, n);
    if m.len() > 0 {
        assert(m.contains(m[0]));
        lemma_matching_member(rows, k, key, n, m[0]);
    }
}

/// The grouping of build rows by key, after the first `n` rows: each key
/// that equals itself lists, ascending, every row with an equal key; every
/// such row has a group; no two group keys are equal.
pub open spec fn groups_ok(
    rows: Seq<Seq<Val>>,
    k: int,
    keys: Seq<Val>,
    members: Seq<Seq<int>>,
    n: int,
) -> bool {
    &&& keys.len() == members.len()
    &&& forall|g: int|
        0 <= g < keys.len() && val_eq(keys[g], keys[g]) ==> #[trigger] members[g]
            == matching_indices(rows, k, keys[g], n)
    &&& forall|i: int|
        0 <= i < n && val_eq(key_of(rows[i], k), key_of(rows[i], k)) ==> exists|g: int|
            0 <= g < keys.len() && val_eq(#[trigger] keys[g], key_of(rows[i], k))
    &&& forall|g1: int, g2: int|
        0 <= g1 < keys.len() && 0 <= g2 < keys.len() && g1 != g2 ==> !val_eq(
            #[trigger] keys[g1],
            #[trigger] keys[g2],
        )
}

/// Row `n` joins group `g`, whose key equals its key.
pub proof fn lemma_group_join(
    rows: Seq<Seq<Val>>,
    k: int,
    keys: Seq<Val>,
    members: Seq<Seq<int>>,
    n: int,
    g: int,
)
    requires
        groups_ok(rows, k, keys, members, n),
        0 <= n,
        0 <= g < keys.len(),
        val_eq(keys[g], key_of(rows[n], k)),
    ensures
        groups_ok(rows, k, keys, members.update(g, members[g].push(n)), n + 1),
{
    let kn = key_of(rows[n], k);
    let m2 = members.update(g, members[g].push(n));
    lemma_val_eq_reflexive_sides(keys[g], kn);
    lemma_val_eq_symmetric(keys[g], kn);
    assert forall|h: int| 0 <= h < keys.len() && val_eq(keys[h], keys[h]) implies #[trigger] m2[h]
        == matching_indices(rows, k, keys[h], n + 1) by {
        if h != g {
            if val_eq(kn, keys[h]) {
                lemma_val_eq_transitive(keys[g], kn, keys[h]);
            }
        }
    }
    assert forall|i: int|
        0 <= i < n + 1 && val_eq(key_of(rows[i], k), key_of(rows[i], k)) implies exists|h: int|
        0 <= h < keys.len() && val_eq(#[trigger] keys[h], key_of(rows[i], k)) by {
        if i == n {
            assert(val_eq(keys[g], key_of(rows[i], k)));
        }
    }
}

/// Row `n` starts a new group: no group key equals its key.
pub proof fn lemma_group_new(
    rows: Seq<Seq<Val>>,
    k: int,
    keys: Seq<Val>,
    members: Seq<Seq<int>>,
    n: int,
)
    requires
        groups_ok(rows, k, keys, members, n),
        0 <= n,
        forall|g: int| 0 <= g < keys.len() ==> !val_eq(#[trigger] keys[g], key_of(rows[n], k)),
    ensures
        groups_ok(rows, k, keys.push(key_of(rows[n], k)), members.push(seq![n]), n + 1),
{
    let kn = key_of(rows[n], k);
    let keys2 = keys.push(kn);
    let m2 = members.push(seq![n]);
    if val_eq(kn, kn) {
        assert forall|i: int| 0 <= i < n implies !val_eq(#[trigger] key_of(rows[i], k), kn) by {
            if val_eq(key_of(rows[i], k), kn) {
                lemma_val_eq_reflexive_sides(key_of(rows[i], k), kn);
                let g = choose|g: int| 0 <= g < keys.len() && val_eq(#[trigger] keys[g], key_of(rows[i], k));
                lemma_val_eq_transitive(keys[g], key_of(rows[i], k), kn);
            }
        }
        lemma_matching_none(rows, k, kn, n);
        assert(matching_indices(rows, k, kn, n + 1) =~= seq![n]);
    }
    assert forall|h: int| 0 <= h < keys2.len() && val_eq(keys2[h], keys2[h]) implies #[trigger] m2[h]
        == matching_indices(rows, k, keys2[h], n + 1) by {
        if h < keys.len() {
            lemma_val_eq_symmetric(keys[h], kn);
            assert(keys2[h] == keys[h]);
        }
    }
    assert forall|i: int|
        0 <= i < n + 1 && val_eq(key_of(rows[i], k), key_of(rows[i], k)) implies exists|h: int|
        0 <= h < keys2.len() && val_eq(#[trigger] keys2[h], key_of(rows[i], k)) by {
        if i == n {
            assert(keys2[keys.len() as int] == kn);
        } else {
            let g = choose|g: int| 0 <= g < keys.len() && val_eq(#[trigger] keys[g], key_of(rows[i], k));
            assert(keys2[g] == keys[g]);
        }
    }
    assert forall|g1: int, g2: int|
        0 <= g1 < keys2.len() && 0 <= g2 < keys2.len() && g1 != g2 implies !val_eq(
        #[trigger] keys2[g1],
        #[trigger] keys2[g2],
    ) by {
        if g1 < keys.len() && g2 < keys.len() {
            assert(keys2[g1] == keys[g1] && keys2[g2] == keys[g2]);
        } else if g1 < keys.len() {
            assert(keys2[g1] == keys[g1] && keys2[g2] == kn);
        } else {
            assert(keys2[g2] == keys[g2] && keys2[g1] == kn);
            lemma_val_eq_symmetric(keys[g2], kn);
        }
    }
}

} // verus!
