//! Laws of joins.

use vstd::prelude::*;
use crate::joins_spec::{
    JoinKind, Scan, keeps_left, keeps_right, cross_join_rows, every_pair, hash_join_rows, hash_matched, joined_with, key_of,
    lemma_matching_bounded, lemma_matching_member, lemma_val_eq_symmetric, matching_indices, scan_pairs,
};
use crate::value::{ResultView, val_eq};
use vstd::seq_lib::lemma_multiset_commutative;
use crate::ast::{BinaryOp, Expression};
use crate::expr_spec::{EvalEnv, cell_at, eval, position_from, qualified_at, qualified_position, qualified_position_from};
use crate::joins::{column_of, hash_join_view, nested_join_view};
use crate::joins_spec::{
    cond_test, equi_columns, field_name, has_partner, side_position, left_matched, nested_join_rows, nulls, pair_test, scanned_rows,
    unmatched_left, unpartnered,
};
use crate::value::Val;

verus! {

/// Left row `i` joined with every right row, in order.
pub open spec fn pair_row(left: Seq<Seq<Val>>, right: Seq<Seq<Val>>, i: int) -> Seq<Seq<Val>> {
    Seq::new(right.len(), |j: int| left[i] + right[j])
}

/// The joined rows of left rows `from` on, each with every right row.
pub open spec fn pairs_from(left: Seq<Seq<Val>>, right: Seq<Seq<Val>>, from: int) -> Seq<Seq<Val>> {
    Seq::new((left.len() - from) as nat, |i: int| pair_row(left, right, from + i)).flatten()
}

/// Every left row joined with every right row, left-major.
pub open spec fn all_pairs(left: Seq<Seq<Val>>, right: Seq<Seq<Val>>) -> Seq<Seq<Val>> {
    pairs_from(left, right, 0)
}

proof fn lemma_pairs_from_step(left: Seq<Seq<Val>>, right: Seq<Seq<Val>>, from: int)
    requires
        0 <= from < left.len(),
    ensures
        pairs_from(left, right, from) == pair_row(left, right, from) + pairs_from(left, right, from + 1),
{
    let blocks = Seq::new((left.len() - from) as nat, |i: int| pair_row(left, right, from + i));
    assert(blocks.drop_first() =~= Seq::new((left.len() - (from + 1)) as nat, |i: int| pair_row(left, right, from + 1 + i)));
}

proof fn lemma_scan_every_pair(
    left: Seq<Seq<Val>>,
    right: Seq<Seq<Val>>,
    li: int,
    ri: int,
    rows: Seq<Seq<Val>>,
)
    requires
        0 <= li <= left.len(),
        0 <= ri <= right.len(),
    ensures
        scan_pairs(left, right, every_pair(), None, li, ri, rows) == Scan::Finished(
            rows + if li < left.len() {
                pair_row(left, right, li).subrange(ri, right.len() as int) + pairs_from(left, right, li + 1)
            } else {
                Seq::empty()
            },
        ),
    decreases left.len() - li, right.len() - ri,
{
    if li >= left.len() {
        assert(rows + Seq::<Seq<Val>>::empty() =~= rows);
    } else if ri >= right.len() {
        lemma_scan_every_pair(left, right, li + 1, 0, rows);
        assert(pair_row(left, right, li).subrange(ri, right.len() as int) =~= Seq::<Seq<Val>>::empty());
        if li + 1 < left.len() {
            lemma_pairs_from_step(left, right, li + 1);
            assert(pair_row(left, right, li + 1).subrange(0, right.len() as int) =~= pair_row(left, right, li + 1));
            assert(pairs_from(left, right, li + 1) == pair_row(left, right, li + 1).subrange(0, right.len() as int)
                + pairs_from(left, right, li + 2));
        } else {
            assert(pairs_from(left, right, li + 1) =~= Seq::<Seq<Val>>::empty());
        }
        assert(Seq::<Seq<Val>>::empty() + pairs_from(left, right, li + 1) =~= pairs_from(left, right, li + 1));
    } else {
        let x = left[li] + right[ri];
        lemma_scan_every_pair(left, right, li, ri + 1, rows.push(x));
        let rest = pair_row(left, right, li).subrange(ri + 1, right.len() as int) + pairs_from(left, right, li + 1);
        assert(pair_row(left, right, li).subrange(ri, right.len() as int) =~= seq![x] + pair_row(
            left,
            right,
            li,
        ).subrange(ri + 1, right.len() as int));
        assert(rows.push(x) + rest =~= rows + (pair_row(left, right, li).subrange(ri, right.len() as int)
            + pairs_from(left, right, li + 1)));
    }
}

/// The number of rows in the joined rows of left rows `from` on.
proof fn lemma_pairs_from_length(left: Seq<Seq<Val>>, right: Seq<Seq<Val>>, from: int)
    requires
        0 <= from <= left.len(),
    ensures
        pairs_from(left, right, from).len() == (left.len() - from) * right.len(),
    decreases left.len() - from,
{
    if from < left.len() {
        lemma_pairs_from_step(left, right, from);
        lemma_pairs_from_length(left, right, from + 1);
        assert((left.len() - from) * right.len() == (left.len() - (from + 1)) * right.len() + right.len())
            by (nonlinear_arith);
    } else {
        assert(pairs_from(left, right, from) =~= Seq::<Seq<Val>>::empty());
    }
}

/// A cross join without a limit joins every left row with every right row,
/// left-major, and so has as many rows as the product of the two sides'.
pub proof fn lemma_cross_join_is_every_pair(left: Seq<Seq<Val>>, right: Seq<Seq<Val>>)
    ensures
        cross_join_rows(left, right, None) == all_pairs(left, right),
        cross_join_rows(left, right, None).len() == left.len() * right.len(),
{
    lemma_scan_every_pair(left, right, 0, 0, Seq::empty());
    if left.len() > 0 {
        lemma_pairs_from_step(left, right, 0);
        assert(pair_row(left, right, 0).subrange(0, right.len() as int) =~= pair_row(left, right, 0));
        assert(Seq::<Seq<Val>>::empty() + (pair_row(left, right, 0) + pairs_from(left, right, 1)) =~= all_pairs(left, right));
    } else {
        assert(all_pairs(left, right) =~= Seq::<Seq<Val>>::empty());
        assert(Seq::<Seq<Val>>::empty() + Seq::<Seq<Val>>::empty() =~= Seq::<Seq<Val>>::empty());
    }
    lemma_pairs_from_length(left, right, 0);
}

/// Every matched row of a hash join joins a probe row and a build row
/// whose keys are equal, the left row first.
proof fn lemma_hash_matched_rows(
    build: Seq<Seq<Val>>,
    probe: Seq<Seq<Val>>,
    bk: int,
    pk: int,
    build_is_right: bool,
    m: int,
    x: int,
)
    requires
        0 <= m <= probe.len(),
        0 <= x < hash_matched(build, probe, bk, pk, build_is_right, m).len(),
    ensures
        exists|p: int, b: int|
            0 <= p < m && 0 <= b < build.len() && val_eq(key_of(#[trigger] build[b], bk), key_of(#[trigger] probe[p], pk))
                && hash_matched(build, probe, bk, pk, build_is_right, m)[x] == if build_is_right {
                probe[p] + build[b]
            } else {
                build[b] + probe[p]
            },
    decreases m,
{
    let before = hash_matched(build, probe, bk, pk, build_is_right, m - 1);
    let key = key_of(probe[m - 1], pk);
    let idxs = matching_indices(build, bk, key, build.len() as int);
    let here = joined_with(build, probe[m - 1], idxs, build_is_right);
    assert(hash_matched(build, probe, bk, pk, build_is_right, m) == before + here);
    if x < before.len() {
        lemma_hash_matched_rows(build, probe, bk, pk, build_is_right, m - 1, x);
        let (p, b) = choose|p: int, b: int|
            0 <= p < m - 1 && 0 <= b < build.len() && val_eq(key_of(#[trigger] build[b], bk), key_of(#[trigger] probe[p], pk))
                && before[x] == if build_is_right {
                probe[p] + build[b]
            } else {
                build[b] + probe[p]
            };
        assert((before + here)[x] == before[x]);
        assert(0 <= p < m && 0 <= b < build.len());
    } else {
        let t = x - before.len();
        lemma_matching_bounded(build, bk, key, build.len() as int);
        let b = idxs[t];
        assert(idxs.contains(b));
        lemma_matching_member(build, bk, key, build.len() as int, b);
        assert((before + here)[x] == here[t]);
        assert(val_eq(key_of(build[b], bk), key_of(probe[m - 1], pk)));
    }
}

/// Every row of an inner hash join is a left row followed by a right row
/// whose key cells are equal.
pub proof fn lemma_inner_hash_join_rows_match(
    left: Seq<Seq<Val>>,
    right: Seq<Seq<Val>>,
    lk: int,
    rk: int,
    left_width: nat,
    right_width: nat,
    x: int,
)
    requires
        0 <= x < hash_join_rows(left, right, lk, rk, JoinKind::Inner, left_width, right_width).len(),
    ensures
        exists|i: int, j: int|
            0 <= i < left.len() && 0 <= j < right.len() && val_eq(key_of(#[trigger] left[i], lk), key_of(#[trigger] right[j], rk))
                && hash_join_rows(left, right, lk, rk, JoinKind::Inner, left_width, right_width)[x] == left[i] + right[j],
{
    if left.len() <= right.len() {
        lemma_hash_matched_rows(left, right, lk, rk, false, right.len() as int, x);
    } else {
        lemma_hash_matched_rows(right, left, rk, lk, true, left.len() as int, x);
        let (p, b) = choose|p: int, b: int|
            0 <= p < left.len() && 0 <= b < right.len() && val_eq(key_of(#[trigger] right[b], rk), key_of(#[trigger] left[p], lk))
                && hash_matched(right, left, rk, lk, true, left.len() as int)[x] == left[p] + right[b];
        lemma_val_eq_symmetric(key_of(right[b], rk), key_of(left[p], lk));
    }
}

/// Looking a name up in two lists of columns put together finds it in the
/// first list if it is there, and in the second one, shifted, otherwise.
proof fn lemma_position_in_concat(a: Seq<Seq<char>>, b: Seq<Seq<char>>, name: Seq<char>, s: int)
    requires
        0 <= s <= a.len(),
    ensures
        position_from(a + b, name, s) == match position_from(a, name, s) {
            Some(i) => Some(i),
            None => match position_from(b, name, 0) {
                Some(j) => Some(a.len() + j),
                None => None,
            },
        },
    decreases a.len() - s,
{
    if s < a.len() {
        assert((a + b)[s] == a[s]);
        lemma_position_in_concat(a, b, name, s + 1);
    } else {
        lemma_position_in_second(a, b, name, 0);
    }
}

proof fn lemma_position_in_second(a: Seq<Seq<char>>, b: Seq<Seq<char>>, name: Seq<char>, t: int)
    requires
        0 <= t <= b.len(),
    ensures
        position_from(a + b, name, a.len() + t) == match position_from(b, name, t) {
            Some(j) => Some(a.len() + j),
            None => None,
        },
    decreases b.len() - t,
{
    if t < b.len() {
        assert((a + b)[a.len() + t] == b[t]);
        lemma_position_in_second(a, b, name, t + 1);
    }
}

/// The join condition `a = b` of a left column `a` and a right-only column
/// `b`.
pub open spec fn column_equality(a: String, b: String) -> Expression {
    Expression::BinaryOp {
        op: BinaryOp::Eq,
        left: Box::new(Expression::Ident(a)),
        right: Box::new(Expression::Ident(b)),
    }
}

/// The left column `a` is found in the left columns, and the column `b`
/// only in the right ones.
pub open spec fn splits_sides(left: ResultView, right: ResultView, a: String, b: String) -> bool {
    &&& position_from(left.columns, a@, 0) is Some
    &&& position_from(left.columns, b@, 0) is None
    &&& position_from(right.columns, b@, 0) is Some
}

/// On a pair of rows, the nested-loop test of `a = b` compares the two key
/// cells as the hash join does.
proof fn lemma_equality_test(left: ResultView, right: ResultView, a: String, b: String, now: Seq<char>, l: Seq<Val>, r: Seq<Val>)
    requires
        splits_sides(left, right, a, b),
        l.len() == left.columns.len(),
    ensures
        equi_columns(column_equality(a, b), left.columns, left.sources, right.columns, right.sources) matches Some(
            keys,
        ) && cond_test(column_equality(a, b), left.columns + right.columns, left.sources + right.sources, now)(l, r)
            == Some(val_eq(key_of(l, keys.0), key_of(r, keys.1))),
{
    let p = position_from(left.columns, a@, 0).unwrap();
    let q = position_from(right.columns, b@, 0).unwrap();
    lemma_position_in_concat(left.columns, right.columns, a@, 0);
    lemma_position_in_concat(left.columns, right.columns, b@, 0);
    lemma_position_within(left.columns, a@, 0);
    lemma_position_within(right.columns, b@, 0);
    reveal(pair_test);
    let env = EvalEnv { columns: left.columns + right.columns, sources: left.sources + right.sources, row: l + r, now: now };
    assert(cell_at(l + r, Some(p)) == key_of(l, p));
    assert(cell_at(l + r, Some(left.columns.len() + q)) == key_of(r, q));
    assert(eval(Expression::Ident(a), env) == Some(key_of(l, p)));
    assert(eval(Expression::Ident(b), env) == Some(key_of(r, q)));
}

proof fn lemma_position_within(columns: Seq<Seq<char>>, name: Seq<char>, s: int)
    requires
        0 <= s,
    ensures
        position_from(columns, name, s) matches Some(i) ==> s <= i < columns.len(),
    decreases columns.len() - s,
{
    if s < columns.len() {
        lemma_position_within(columns, name, s + 1);
    }
}

/// Whether the pair `(i, j)` is at or after `(li, ri)` in left-major order.
pub open spec fn pair_from(i: int, j: int, li: int, ri: int, left_len: int, right_len: int) -> bool {
    0 <= i < left_len && 0 <= j < right_len && (i > li || (i == li && j >= ri))
}

/// A scan whose test always has an answer and that has no limit finishes
/// and keeps exactly the pairs the test holds for.
proof fn lemma_scan_keeps_matches(
    left: Seq<Seq<Val>>,
    right: Seq<Seq<Val>>,
    test: spec_fn(Seq<Val>, Seq<Val>) -> Option<bool>,
    li: int,
    ri: int,
    rows: Seq<Seq<Val>>,
)
    requires
        0 <= li,
        0 <= ri,
        forall|i: int, j: int| 0 <= i < left.len() && 0 <= j < right.len() ==> (#[trigger] test(left[i], right[j])) is Some,
    ensures
        scan_pairs(left, right, test, None, li, ri, rows) is Finished,
        forall|x: Seq<Val>|
            #[trigger] scanned_rows(scan_pairs(left, right, test, None, li, ri, rows)).contains(x) <==> (rows.contains(x)
                || exists|i: int, j: int|
                pair_from(i, j, li, ri, left.len() as int, right.len() as int) && test(left[i], right[j]) == Some(
                    true,
                ) && x == left[i] + right[j]),
    decreases left.len() - li, right.len() - ri,
{
    if li >= left.len() {
    } else if ri >= right.len() {
        lemma_scan_keeps_matches(left, right, test, li + 1, 0, rows);
        assert forall|x: Seq<Val>|
            #[trigger] scanned_rows(scan_pairs(left, right, test, None, li, ri, rows)).contains(x) <==> (rows.contains(x)
                || exists|i: int, j: int|
                pair_from(i, j, li, ri, left.len() as int, right.len() as int) && test(left[i], right[j]) == Some(
                    true,
                ) && x == left[i] + right[j]) by {
            if exists|i: int, j: int|
                pair_from(i, j, li, ri, left.len() as int, right.len() as int) && test(left[i], right[j]) == Some(
                    true,
                ) && x == left[i] + right[j] {
                let (i, j) = choose|i: int, j: int|
                    pair_from(i, j, li, ri, left.len() as int, right.len() as int) && test(left[i], right[j]) == Some(
                        true,
                    ) && x == left[i] + right[j];
                assert(pair_from(i, j, li + 1, 0, left.len() as int, right.len() as int));
            }
            if exists|i: int, j: int|
                pair_from(i, j, li + 1, 0, left.len() as int, right.len() as int) && test(left[i], right[j]) == Some(
                    true,
                ) && x == left[i] + right[j] {
                let (i, j) = choose|i: int, j: int|
                    pair_from(i, j, li + 1, 0, left.len() as int, right.len() as int) && test(left[i], right[j])
                        == Some(true) && x == left[i] + right[j];
                assert(pair_from(i, j, li, ri, left.len() as int, right.len() as int));
            }
        }
    } else {
        let keep = test(left[li], right[ri]).unwrap();
        let kept = if keep {
            rows.push(left[li] + right[ri])
        } else {
            rows
        };
        lemma_scan_keeps_matches(left, right, test, li, ri + 1, kept);
        assert forall|x: Seq<Val>|
            #[trigger] scanned_rows(scan_pairs(left, right, test, None, li, ri, rows)).contains(x) <==> (rows.contains(x)
                || exists|i: int, j: int|
                pair_from(i, j, li, ri, left.len() as int, right.len() as int) && test(left[i], right[j]) == Some(
                    true,
                ) && x == left[i] + right[j]) by {
            if keep {
                assert(kept.contains(x) <==> (rows.contains(x) || x == left[li] + right[ri])) by {
                    if kept.contains(x) {
                        let k = choose|k: int| 0 <= k < kept.len() && kept[k] == x;
                        if k < rows.len() {
                            assert(rows[k] == x);
                        }
                    }
                    if rows.contains(x) {
                        let k = choose|k: int| 0 <= k < rows.len() && rows[k] == x;
                        assert(kept[k] == x);
                    }
                    if x == left[li] + right[ri] {
                        assert(kept[rows.len() as int] == x);
                    }
                }
            }
            if exists|i: int, j: int|
                pair_from(i, j, li, ri, left.len() as int, right.len() as int) && test(left[i], right[j]) == Some(
                    true,
                ) && x == left[i] + right[j] {
                let (i, j) = choose|i: int, j: int|
                    pair_from(i, j, li, ri, left.len() as int, right.len() as int) && test(left[i], right[j]) == Some(
                        true,
                    ) && x == left[i] + right[j];
                if !(i == li && j == ri) {
                    assert(pair_from(i, j, li, ri + 1, left.len() as int, right.len() as int));
                }
            }
            if exists|i: int, j: int|
                pair_from(i, j, li, ri + 1, left.len() as int, right.len() as int) && test(left[i], right[j]) == Some(
                    true,
                ) && x == left[i] + right[j] {
                let (i, j) = choose|i: int, j: int|
                    pair_from(i, j, li, ri + 1, left.len() as int, right.len() as int) && test(left[i], right[j])
                        == Some(true) && x == left[i] + right[j];
                assert(pair_from(i, j, li, ri, left.len() as int, right.len() as int));
            }
            if keep && x == left[li] + right[ri] {
                assert(pair_from(li, ri, li, ri, left.len() as int, right.len() as int));
            }
        }
    }
}

/// A probe row and a build row with equal keys are joined among the
/// matched rows of a hash join.
proof fn lemma_hash_matched_has(
    build: Seq<Seq<Val>>,
    probe: Seq<Seq<Val>>,
    bk: int,
    pk: int,
    build_is_right: bool,
    m: int,
    p: int,
    b: int,
)
    requires
        0 <= p < m <= probe.len(),
        0 <= b < build.len(),
        val_eq(key_of(build[b], bk), key_of(probe[p], pk)),
    ensures
        hash_matched(build, probe, bk, pk, build_is_right, m).contains(
            if build_is_right {
                probe[p] + build[b]
            } else {
                build[b] + probe[p]
            },
        ),
    decreases m,
{
    let before = hash_matched(build, probe, bk, pk, build_is_right, m - 1);
    let key = key_of(probe[m - 1], pk);
    let idxs = matching_indices(build, bk, key, build.len() as int);
    let here = joined_with(build, probe[m - 1], idxs, build_is_right);
    let x = if build_is_right {
        probe[p] + build[b]
    } else {
        build[b] + probe[p]
    };
    if p < m - 1 {
        lemma_hash_matched_has(build, probe, bk, pk, build_is_right, m - 1, p, b);
        let k = choose|k: int| 0 <= k < before.len() && before[k] == x;
        assert((before + here)[k] == x);
    } else {
        lemma_matching_member(build, bk, key, build.len() as int, b);
        let t = choose|t: int| 0 <= t < idxs.len() && idxs[t] == b;
        assert(here[t] == x);
        assert((before + here)[before.len() + t] == x);
    }
}

/// The concatenation of two sequences holds what either holds.
proof fn lemma_concat_contains_iff(a: Seq<Seq<Val>>, b: Seq<Seq<Val>>, x: Seq<Val>)
    ensures
        (a + b).contains(x) <==> (a.contains(x) || b.contains(x)),
{
    lemma_contains_in_concat(a, b, x);
    if (a + b).contains(x) {
        let k = choose|k: int| 0 <= k < (a + b).len() && (a + b)[k] == x;
        if k < a.len() {
            assert(a[k] == x);
        } else {
            assert(b[k - a.len()] == x);
        }
    }
}

/// With a test that compares the key cells, the left rows without a key
/// partner (hash join) are the left rows that match no right row
/// (nested-loop join), padded alike.
proof fn lemma_unpartnered_left_is_unmatched(
    left: Seq<Seq<Val>>,
    right: Seq<Seq<Val>>,
    lk: int,
    rk: int,
    test: spec_fn(Seq<Val>, Seq<Val>) -> Option<bool>,
    width: nat,
    n: int,
)
    requires
        0 <= n <= left.len(),
        forall|i: int, j: int| 0 <= i < left.len() && 0 <= j < right.len() ==> #[trigger] test(left[i], right[j])
            == Some(val_eq(key_of(left[i], lk), key_of(right[j], rk))),
    ensures
        unpartnered(left.take(n), lk, right, rk, width, false) == unmatched_left(left, right, test, width, n),
    decreases n,
{
    if n > 0 {
        lemma_unpartnered_left_is_unmatched(left, right, lk, rk, test, width, n - 1);
        assert(left.take(n).drop_last() =~= left.take(n - 1));
        assert(left.take(n).last() == left[n - 1]);
        let row = left[n - 1];
        assert(has_partner(row, lk, right, rk) == left_matched(left, right, test, n - 1)) by {
            if has_partner(row, lk, right, rk) {
                let j = choose|j: int| 0 <= j < right.len() && val_eq(key_of(row, lk), key_of(#[trigger] right[j], rk));
                assert(test(left[n - 1], right[j]) == Some(true));
            }
            if left_matched(left, right, test, n - 1) {
                let j = choose|j: int| 0 <= j < right.len() && test(left[n - 1], #[trigger] right[j]) == Some(true);
                assert(val_eq(key_of(row, lk), key_of(right[j], rk)));
            }
        }
    } else {
        assert(left.take(0).len() == 0);
    }
}

/// Likewise for the right rows without a partner.
proof fn lemma_unpartnered_right_is_unmatched(
    left: Seq<Seq<Val>>,
    right: Seq<Seq<Val>>,
    lk: int,
    rk: int,
    test: spec_fn(Seq<Val>, Seq<Val>) -> Option<bool>,
    width: nat,
    n: int,
)
    requires
        0 <= n <= right.len(),
        forall|i: int, j: int| 0 <= i < left.len() && 0 <= j < right.len() ==> #[trigger] test(left[i], right[j])
            == Some(val_eq(key_of(left[i], lk), key_of(right[j], rk))),
    ensures
        unpartnered(right.take(n), rk, left, lk, width, true) == crate::joins_spec::unmatched_right(
            left,
            right,
            test,
            width,
            n,
        ),
    decreases n,
{
    if n > 0 {
        lemma_unpartnered_right_is_unmatched(left, right, lk, rk, test, width, n - 1);
        assert(right.take(n).drop_last() =~= right.take(n - 1));
        assert(right.take(n).last() == right[n - 1]);
        let row = right[n - 1];
        assert(has_partner(row, rk, left, lk) == crate::joins_spec::right_matched(left, right, test, n - 1)) by {
            if has_partner(row, rk, left, lk) {
                let i = choose|i: int| 0 <= i < left.len() && val_eq(key_of(row, rk), key_of(#[trigger] left[i], lk));
                lemma_val_eq_symmetric(key_of(row, rk), key_of(left[i], lk));
                assert(test(left[i], right[n - 1]) == Some(true));
            }
            if crate::joins_spec::right_matched(left, right, test, n - 1) {
                let i = choose|i: int| 0 <= i < left.len() && test(#[trigger] left[i], right[n - 1]) == Some(true);
                lemma_val_eq_symmetric(key_of(row, rk), key_of(left[i], lk));
                assert(val_eq(key_of(row, rk), key_of(left[i], lk)));
            }
        }
    } else {
        assert(right.take(0).len() == 0);
    }
}

/// The joined row of left row `i` and right row `j` when the test holds
/// on them, and nothing otherwise.
pub open spec fn cell_block(
    left: Seq<Seq<Val>>,
    right: Seq<Seq<Val>>,
    test: spec_fn(Seq<Val>, Seq<Val>) -> Option<bool>,
    i: int,
    j: int,
) -> Seq<Seq<Val>> {
    if test(left[i], right[j]) == Some(true) {
        seq![left[i] + right[j]]
    } else {
        Seq::empty()
    }
}

/// The kept pairs of left row `i` with the first `n` right rows.
pub open spec fn row_part(
    left: Seq<Seq<Val>>,
    right: Seq<Seq<Val>>,
    test: spec_fn(Seq<Val>, Seq<Val>) -> Option<bool>,
    i: int,
    n: int,
) -> Seq<Seq<Val>>
    decreases n,
{
    if n <= 0 {
        Seq::empty()
    } else {
        row_part(left, right, test, i, n - 1) + cell_block(left, right, test, i, n - 1)
    }
}

/// The kept pairs of the first `n` left rows with right row `j`.
pub open spec fn col_part(
    left: Seq<Seq<Val>>,
    right: Seq<Seq<Val>>,
    test: spec_fn(Seq<Val>, Seq<Val>) -> Option<bool>,
    j: int,
    n: int,
) -> Seq<Seq<Val>>
    decreases n,
{
    if n <= 0 {
        Seq::empty()
    } else {
        col_part(left, right, test, j, n - 1) + cell_block(left, right, test, n - 1, j)
    }
}

/// The kept pairs of the first `n` left rows with the first `w` right
/// rows, left-major.
pub open spec fn left_major(
    left: Seq<Seq<Val>>,
    right: Seq<Seq<Val>>,
    test: spec_fn(Seq<Val>, Seq<Val>) -> Option<bool>,
    n: int,
    w: int,
) -> Seq<Seq<Val>>
    decreases n,
{
    if n <= 0 {
        Seq::empty()
    } else {
        left_major(left, right, test, n - 1, w) + row_part(left, right, test, n - 1, w)
    }
}

/// The kept pairs of the first `h` left rows with the first `n` right
/// rows, right-major.
pub open spec fn right_major(
    left: Seq<Seq<Val>>,
    right: Seq<Seq<Val>>,
    test: spec_fn(Seq<Val>, Seq<Val>) -> Option<bool>,
    n: int,
    h: int,
) -> Seq<Seq<Val>>
    decreases n,
{
    if n <= 0 {
        Seq::empty()
    } else {
        right_major(left, right, test, n - 1, h) + col_part(left, right, test, n - 1, h)
    }
}

proof fn lemma_left_major_no_columns(
    left: Seq<Seq<Val>>,
    right: Seq<Seq<Val>>,
    test: spec_fn(Seq<Val>, Seq<Val>) -> Option<bool>,
    n: int,
)
    ensures
        left_major(left, right, test, n, 0) == Seq::<Seq<Val>>::empty(),
    decreases n,
{
    if n > 0 {
        lemma_left_major_no_columns(left, right, test, n - 1);
        assert(Seq::<Seq<Val>>::empty() + Seq::<Seq<Val>>::empty() =~= Seq::<Seq<Val>>::empty());
    }
}

/// Taking one more right row into a left-major enumeration adds that
/// row's column of kept pairs, as multisets.
proof fn lemma_left_major_widen(
    left: Seq<Seq<Val>>,
    right: Seq<Seq<Val>>,
    test: spec_fn(Seq<Val>, Seq<Val>) -> Option<bool>,
    n: int,
    w: int,
)
    requires
        w >= 1,
    ensures
        left_major(left, right, test, n, w).to_multiset() == left_major(left, right, test, n, w - 1).to_multiset().add(
            col_part(left, right, test, w - 1, n).to_multiset(),
        ),
    decreases n,
{
    broadcast use vstd::multiset::group_multiset_axioms;

    if n > 0 {
        lemma_left_major_widen(left, right, test, n - 1, w);
        let a = left_major(left, right, test, n - 1, w - 1);
        let c = col_part(left, right, test, w - 1, n - 1);
        let r = row_part(left, right, test, n - 1, w - 1);
        let x = cell_block(left, right, test, n - 1, w - 1);
        lemma_multiset_commutative(left_major(left, right, test, n - 1, w), row_part(left, right, test, n - 1, w));
        lemma_multiset_commutative(r, x);
        lemma_multiset_commutative(a, r);
        lemma_multiset_commutative(c, x);
        assert(left_major(left, right, test, n, w).to_multiset() =~= left_major(left, right, test, n, w - 1).to_multiset().add(
            col_part(left, right, test, w - 1, n).to_multiset(),
        ));
    } else {
        let e = Seq::<Seq<Val>>::empty();
        lemma_multiset_commutative(e, e);
        assert(e + e =~= e);
        assert(left_major(left, right, test, 0, w) == e);
        assert(left_major(left, right, test, 0, w - 1) == e);
        assert(col_part(left, right, test, w - 1, 0) == e);
    }
}

/// A left-major and a right-major enumeration of the same kept pairs hold
/// the same rows, as many times each.
proof fn lemma_majors_same_multiset(
    left: Seq<Seq<Val>>,
    right: Seq<Seq<Val>>,
    test: spec_fn(Seq<Val>, Seq<Val>) -> Option<bool>,
    n: int,
    w: int,
)
    requires
        w >= 0,
    ensures
        left_major(left, right, test, n, w).to_multiset() == right_major(left, right, test, w, n).to_multiset(),
    decreases w,
{
    broadcast use vstd::multiset::group_multiset_axioms;

    if w == 0 {
        lemma_left_major_no_columns(left, right, test, n);
        assert(right_major(left, right, test, 0, n) == Seq::<Seq<Val>>::empty());
    } else {
        lemma_left_major_widen(left, right, test, n, w);
        lemma_majors_same_multiset(left, right, test, n, w - 1);
        lemma_multiset_commutative(right_major(left, right, test, w - 1, n), col_part(left, right, test, w - 1, n));
    }
}

/// A scan without a limit whose test always has an answer keeps exactly
/// the left-major enumeration of the kept pairs.
proof fn lemma_scan_is_left_major(
    left: Seq<Seq<Val>>,
    right: Seq<Seq<Val>>,
    test: spec_fn(Seq<Val>, Seq<Val>) -> Option<bool>,
    li: int,
    ri: int,
)
    requires
        0 <= li <= left.len(),
        0 <= ri <= right.len(),
        li < left.len() || ri == 0,
        forall|i: int, j: int| 0 <= i < left.len() && 0 <= j < right.len() ==> (#[trigger] test(left[i], right[j])) is Some,
    ensures
        scan_pairs(
            left,
            right,
            test,
            None,
            li,
            ri,
            left_major(left, right, test, li, right.len() as int) + row_part(left, right, test, li, ri),
        ) == Scan::Finished(left_major(left, right, test, left.len() as int, right.len() as int)),
    decreases left.len() - li, right.len() - ri,
{
    let w = right.len() as int;
    let rows = left_major(left, right, test, li, w) + row_part(left, right, test, li, ri);
    if li >= left.len() {
        assert(rows =~= left_major(left, right, test, li, w));
    } else if ri >= right.len() {
        lemma_scan_is_left_major(left, right, test, li + 1, 0);
        assert(left_major(left, right, test, li + 1, w) + row_part(left, right, test, li + 1, 0) =~= rows);
    } else {
        lemma_scan_is_left_major(left, right, test, li, ri + 1);
        let kept = if test(left[li], right[ri]) == Some(true) {
            rows.push(left[li] + right[ri])
        } else {
            rows
        };
        assert(kept =~= left_major(left, right, test, li, w) + row_part(left, right, test, li, ri + 1));
    }
}

/// The matched rows for probe rows with one build row: the build rows with
/// an equal key among the first `n`, in order.
proof fn lemma_joined_with_is_col_part(
    left: Seq<Seq<Val>>,
    right: Seq<Seq<Val>>,
    lk: int,
    rk: int,
    test: spec_fn(Seq<Val>, Seq<Val>) -> Option<bool>,
    j: int,
    n: int,
)
    requires
        0 <= j < right.len(),
        0 <= n <= left.len(),
        forall|i: int, jj: int| 0 <= i < left.len() && 0 <= jj < right.len() ==> #[trigger] test(left[i], right[jj])
            == Some(val_eq(key_of(left[i], lk), key_of(right[jj], rk))),
    ensures
        joined_with(left, right[j], matching_indices(left, lk, key_of(right[j], rk), n), false) == col_part(
            left,
            right,
            test,
            j,
            n,
        ),
    decreases n,
{
    let key = key_of(right[j], rk);
    if n > 0 {
        lemma_joined_with_is_col_part(left, right, lk, rk, test, j, n - 1);
        let before = matching_indices(left, lk, key, n - 1);
        assert(test(left[n - 1], right[j]) == Some(val_eq(key_of(left[n - 1], lk), key)));
        if val_eq(key_of(left[n - 1], lk), key) {
            assert(joined_with(left, right[j], before.push(n - 1), false) =~= joined_with(left, right[j], before, false)
                + seq![left[n - 1] + right[j]]);
        } else {
            assert(col_part(left, right, test, j, n) =~= col_part(left, right, test, j, n - 1));
        }
    } else {
        assert(joined_with(left, right[j], Seq::empty(), false) =~= Seq::<Seq<Val>>::empty());
    }
}

/// Likewise when the right side is built and the left rows probe it.
proof fn lemma_joined_with_is_row_part(
    left: Seq<Seq<Val>>,
    right: Seq<Seq<Val>>,
    lk: int,
    rk: int,
    test: spec_fn(Seq<Val>, Seq<Val>) -> Option<bool>,
    i: int,
    n: int,
)
    requires
        0 <= i < left.len(),
        0 <= n <= right.len(),
        forall|ii: int, j: int| 0 <= ii < left.len() && 0 <= j < right.len() ==> #[trigger] test(left[ii], right[j])
            == Some(val_eq(key_of(left[ii], lk), key_of(right[j], rk))),
    ensures
        joined_with(right, left[i], matching_indices(right, rk, key_of(left[i], lk), n), true) == row_part(
            left,
            right,
            test,
            i,
            n,
        ),
    decreases n,
{
    let key = key_of(left[i], lk);
    if n > 0 {
        lemma_joined_with_is_row_part(left, right, lk, rk, test, i, n - 1);
        let before = matching_indices(right, rk, key, n - 1);
        lemma_val_eq_symmetric(key_of(right[n - 1], rk), key);
        assert(test(left[i], right[n - 1]) == Some(val_eq(key, key_of(right[n - 1], rk))));
        if val_eq(key_of(right[n - 1], rk), key) {
            assert(joined_with(right, left[i], before.push(n - 1), true) =~= joined_with(right, left[i], before, true)
                + seq![left[i] + right[n - 1]]);
        } else {
            assert(row_part(left, right, test, i, n) =~= row_part(left, right, test, i, n - 1));
        }
    } else {
        assert(joined_with(right, left[i], Seq::empty(), true) =~= Seq::<Seq<Val>>::empty());
    }
}

/// The matched rows of a hash join are the kept pairs: right-major when
/// the left side is built, left-major when the right side is built.
proof fn lemma_hash_matched_is_major(
    left: Seq<Seq<Val>>,
    right: Seq<Seq<Val>>,
    lk: int,
    rk: int,
    test: spec_fn(Seq<Val>, Seq<Val>) -> Option<bool>,
    m: int,
)
    requires
        0 <= m,
        forall|i: int, j: int| 0 <= i < left.len() && 0 <= j < right.len() ==> #[trigger] test(left[i], right[j])
            == Some(val_eq(key_of(left[i], lk), key_of(right[j], rk))),
    ensures
        m <= right.len() ==> hash_matched(left, right, lk, rk, false, m) == right_major(
            left,
            right,
            test,
            m,
            left.len() as int,
        ),
        m <= left.len() ==> hash_matched(right, left, rk, lk, true, m) == left_major(
            left,
            right,
            test,
            m,
            right.len() as int,
        ),
    decreases m,
{
    if m > 0 {
        lemma_hash_matched_is_major(left, right, lk, rk, test, m - 1);
        if m <= right.len() {
            lemma_joined_with_is_col_part(left, right, lk, rk, test, m - 1, left.len() as int);
        }
        if m <= left.len() {
            lemma_joined_with_is_row_part(left, right, lk, rk, test, m - 1, right.len() as int);
        }
    }
}

/// The hash join pads unmatched rows as the nested-loop join does: always
/// when the left side is built, and when the right side is built only if
/// the two sides have as many columns.
pub open spec fn pads_alike(left: ResultView, right: ResultView) -> bool {
    left.rows.len() <= right.rows.len() || left.columns.len() == right.columns.len()
}

/// The condition of a join is an equi-join whose test, on every pair of a
/// left and a right row, compares the two key cells.
pub open spec fn tests_keys(left: ResultView, right: ResultView, cond: Expression, now: Seq<char>) -> bool {
    &&& equi_columns(cond, left.columns, left.sources, right.columns, right.sources) is Some
    &&& forall|i: int, j: int|
        #![trigger left.rows[i], right.rows[j]]
        0 <= i < left.rows.len() && 0 <= j < right.rows.len() ==> cond_test(
            cond,
            left.columns + right.columns,
            left.sources + right.sources,
            now,
        )(left.rows[i], right.rows[j]) == Some(
            val_eq(
                key_of(
                    left.rows[i],
                    equi_columns(cond, left.columns, left.sources, right.columns, right.sources).unwrap().0,
                ),
                key_of(
                    right.rows[j],
                    equi_columns(cond, left.columns, left.sources, right.columns, right.sources).unwrap().1,
                ),
            ),
        )
}

/// Where the condition's test compares the key cells, the hash join and the
/// nested-loop join give the same columns and the same rows, in their own
/// orders.
proof fn lemma_agree_on_keys(left: ResultView, right: ResultView, cond: Expression, kind: JoinKind, now: Seq<char>)
    requires
        kind != JoinKind::Cross,
        kind == JoinKind::Inner || pads_alike(left, right),
        tests_keys(left, right, cond, now),
    ensures
        hash_join_view(left, right, cond, kind) matches Some(h) && nested_join_view(
            left,
            right,
            cond,
            kind,
            None,
            now,
        ) matches Some(n) && h.columns == n.columns && h.sources == n.sources && h.rows.to_multiset()
            == n.rows.to_multiset() && forall|x: Seq<Val>| #[trigger] h.rows.contains(x) <==> n.rows.contains(x),
{
    let lr = left.rows;
    let rr = right.rows;
    let test = cond_test(cond, left.columns + right.columns, left.sources + right.sources, now);
    let keys = equi_columns(cond, left.columns, left.sources, right.columns, right.sources).unwrap();
    let (lk, rk) = keys;
    assert forall|i: int, j: int| 0 <= i < lr.len() && 0 <= j < rr.len() implies #[trigger] test(lr[i], rr[j])
        == Some(val_eq(key_of(lr[i], lk), key_of(rr[j], rk))) by {
        assert(lr[i] == left.rows[i] && rr[j] == right.rows[j]);
    }
    lemma_scan_keeps_matches(lr, rr, test, 0, 0, Seq::empty());
    let hrows = hash_join_rows(lr, rr, lk, rk, JoinKind::Inner, left.columns.len(), right.columns.len());
    let nrows = scanned_rows(scan_pairs(lr, rr, test, None, 0, 0, Seq::empty()));
    assert forall|x: Seq<Val>| #[trigger] hrows.contains(x) <==> nrows.contains(x) by {
        if hrows.contains(x) {
            let k = choose|k: int| 0 <= k < hrows.len() && hrows[k] == x;
            lemma_inner_hash_join_rows_match(lr, rr, lk, rk, left.columns.len(), right.columns.len(), k);
            let (i, j) = choose|i: int, j: int|
                0 <= i < lr.len() && 0 <= j < rr.len() && val_eq(key_of(#[trigger] lr[i], lk), key_of(#[trigger] rr[j], rk))
                    && hrows[k] == lr[i] + rr[j];
            assert(pair_from(i, j, 0, 0, lr.len() as int, rr.len() as int) && test(lr[i], rr[j]) == Some(true));
        }
        if nrows.contains(x) {
            assert(!Seq::<Seq<Val>>::empty().contains(x));
            let (i, j) = choose|i: int, j: int|
                pair_from(i, j, 0, 0, lr.len() as int, rr.len() as int) && test(lr[i], rr[j]) == Some(true) && x == lr[i]
                    + rr[j];
            assert(val_eq(key_of(lr[i], lk), key_of(rr[j], rk)));
            if lr.len() <= rr.len() {
                lemma_hash_matched_has(lr, rr, lk, rk, false, rr.len() as int, j, i);
            } else {
                lemma_val_eq_symmetric(key_of(lr[i], lk), key_of(rr[j], rk));
                lemma_hash_matched_has(rr, lr, rk, lk, true, lr.len() as int, i, j);
            }
        }
    }
    let lw = left.columns.len();
    let rw = right.columns.len();
    let (lpad, rpad) = if lr.len() <= rr.len() {
        (rw, lw)
    } else {
        (lw, rw)
    };
    lemma_unpartnered_left_is_unmatched(lr, rr, lk, rk, test, lpad, lr.len() as int);
    lemma_unpartnered_right_is_unmatched(lr, rr, lk, rk, test, rpad, rr.len() as int);
    assert(lr.take(lr.len() as int) =~= lr);
    assert(rr.take(rr.len() as int) =~= rr);
    let ua = unmatched_left(lr, rr, test, rw, lr.len() as int);
    let ub = crate::joins_spec::unmatched_right(lr, rr, test, lw, rr.len() as int);
    let h = hash_join_view(left, right, cond, kind).unwrap();
    let n = nested_join_view(left, right, cond, kind, None, now).unwrap();
    lemma_hash_matched_is_major(lr, rr, lk, rk, test, lr.len() as int);
    lemma_hash_matched_is_major(lr, rr, lk, rk, test, rr.len() as int);
    lemma_scan_is_left_major(lr, rr, test, 0, 0);
    assert(left_major(lr, rr, test, 0, rr.len() as int) + row_part(lr, rr, test, 0, 0) =~= Seq::<Seq<Val>>::empty());
    lemma_majors_same_multiset(lr, rr, test, lr.len() as int, rr.len() as int);
    assert(hrows.to_multiset() == nrows.to_multiset());
    lemma_multiset_commutative(hrows, ua);
    lemma_multiset_commutative(nrows, ua);
    lemma_multiset_commutative(hrows + ua, ub);
    lemma_multiset_commutative(nrows + ua, ub);
    lemma_multiset_commutative(hrows, ub);
    lemma_multiset_commutative(nrows, ub);
    assert forall|x: Seq<Val>| #[trigger] h.rows.contains(x) <==> n.rows.contains(x) by {
        lemma_concat_contains_iff(hrows, ua, x);
        lemma_concat_contains_iff(nrows, ua, x);
        lemma_concat_contains_iff(hrows + ua, ub, x);
        lemma_concat_contains_iff(nrows + ua, ub, x);
        lemma_concat_contains_iff(hrows, ub, x);
        lemma_concat_contains_iff(nrows, ub, x);
    }
}

/// The two ways of running a join on `a = b` (inner, left, right or full),
/// for a column `a` of the left result and a column `b` found only in the
/// right one, give the same columns and the same rows (in their own
/// orders): the left rows joined with the right rows whose key cells are
/// equal, and the unmatched rows the kind keeps, padded with nulls. For
/// outer joins this needs the hash join's padding to agree (see
/// [`pads_alike`]); where it does not, the hash join pads with the other
/// side's width.
pub proof fn lemma_join_strategies_agree(
    left: ResultView,
    right: ResultView,
    a: String,
    b: String,
    kind: JoinKind,
    now: Seq<char>,
)
    requires
        kind != JoinKind::Cross,
        kind == JoinKind::Inner || pads_alike(left, right),
        splits_sides(left, right, a, b),
        forall|j: int| 0 <= j < left.rows.len() ==> (#[trigger] left.rows[j]).len() == left.columns.len(),
    ensures
        hash_join_view(left, right, column_equality(a, b), kind) matches Some(h) && nested_join_view(
            left,
            right,
            column_equality(a, b),
            kind,
            None,
            now,
        ) matches Some(n) && h.columns == n.columns && h.sources == n.sources && h.rows.to_multiset()
            == n.rows.to_multiset() && forall|x: Seq<Val>| #[trigger] h.rows.contains(x) <==> n.rows.contains(x),
{
    let cond = column_equality(a, b);
    let lr = left.rows;
    let rr = right.rows;
    lemma_equality_test(left, right, a, b, now, Seq::new(left.columns.len(), |i: int| Val::Null), Seq::empty());
    assert forall|i: int, j: int| 0 <= i < lr.len() && 0 <= j < rr.len() implies #[trigger] cond_test(
        cond,
        left.columns + right.columns,
        left.sources + right.sources,
        now,
    )(lr[i], rr[j]) == Some(
        val_eq(
            key_of(lr[i], equi_columns(cond, left.columns, left.sources, right.columns, right.sources).unwrap().0),
            key_of(rr[j], equi_columns(cond, left.columns, left.sources, right.columns, right.sources).unwrap().1),
        ),
    ) by {
        lemma_equality_test(left, right, a, b, now, lr[i], rr[j]);
    }
    lemma_agree_on_keys(left, right, cond, kind, now);
}

/// The join condition `ta.fa = tb.fb` of two qualified columns.
pub open spec fn qualified_equality(ta: String, fa: String, tb: String, fb: String) -> Expression {
    Expression::BinaryOp {
        op: BinaryOp::Eq,
        left: Box::new(Expression::QualifiedIdent { table: ta, field: fa }),
        right: Box::new(Expression::QualifiedIdent { table: tb, field: fb }),
    }
}

/// The left result has a column `fa` from table `ta` and none `fb` from
/// `tb`, which the right result has; the left result names a source for
/// each of its columns.
pub open spec fn splits_sides_qualified(
    left: ResultView,
    right: ResultView,
    ta: String,
    fa: String,
    tb: String,
    fb: String,
) -> bool {
    &&& left.sources.len() == left.columns.len()
    &&& qualified_position_from(left.columns, left.sources, ta@, fa@, 0) is Some
    &&& qualified_position_from(left.columns, left.sources, tb@, fb@, 0) is None
    &&& qualified_position_from(right.columns, right.sources, tb@, fb@, 0) is Some
}

/// Looking a qualified name up in two lists of columns put together finds
/// it in the first list if it is there, and in the second one, shifted,
/// otherwise.
proof fn lemma_qualified_in_concat(
    a: Seq<Seq<char>>,
    a_sources: Seq<Option<Seq<char>>>,
    b: Seq<Seq<char>>,
    b_sources: Seq<Option<Seq<char>>>,
    table: Seq<char>,
    field: Seq<char>,
    s: int,
)
    requires
        0 <= s <= a.len(),
        a_sources.len() == a.len(),
    ensures
        qualified_position_from(a + b, a_sources + b_sources, table, field, s) == match qualified_position_from(
            a,
            a_sources,
            table,
            field,
            s,
        ) {
            Some(i) => Some(i),
            None => match qualified_position_from(b, b_sources, table, field, 0) {
                Some(j) => Some(a.len() + j),
                None => None,
            },
        },
    decreases a.len() - s,
{
    if s < a.len() {
        assert((a + b)[s] == a[s]);
        assert((a_sources + b_sources)[s] == a_sources[s]);
        lemma_qualified_in_concat(a, a_sources, b, b_sources, table, field, s + 1);
    } else {
        lemma_qualified_in_second(a, a_sources, b, b_sources, table, field, 0);
    }
}

proof fn lemma_qualified_in_second(
    a: Seq<Seq<char>>,
    a_sources: Seq<Option<Seq<char>>>,
    b: Seq<Seq<char>>,
    b_sources: Seq<Option<Seq<char>>>,
    table: Seq<char>,
    field: Seq<char>,
    t: int,
)
    requires
        0 <= t <= b.len(),
        a_sources.len() == a.len(),
    ensures
        qualified_position_from(a + b, a_sources + b_sources, table, field, a.len() + t) == match qualified_position_from(
            b,
            b_sources,
            table,
            field,
            t,
        ) {
            Some(j) => Some(a.len() + j),
            None => None,
        },
    decreases b.len() - t,
{
    if t < b.len() {
        assert((a + b)[a.len() + t] == b[t]);
        if t < b_sources.len() {
            assert((a_sources + b_sources)[a.len() + t] == b_sources[t]);
        }
        lemma_qualified_in_second(a, a_sources, b, b_sources, table, field, t + 1);
    }
}

/// On a pair of rows, the nested-loop test of `ta.fa = tb.fb` compares the
/// two key cells as the hash join does.
proof fn lemma_qualified_equality_test(
    left: ResultView,
    right: ResultView,
    ta: String,
    fa: String,
    tb: String,
    fb: String,
    now: Seq<char>,
    l: Seq<Val>,
    r: Seq<Val>,
)
    requires
        splits_sides_qualified(left, right, ta, fa, tb, fb),
        l.len() == left.columns.len(),
    ensures
        equi_columns(qualified_equality(ta, fa, tb, fb), left.columns, left.sources, right.columns, right.sources)
            matches Some(keys) && cond_test(
            qualified_equality(ta, fa, tb, fb),
            left.columns + right.columns,
            left.sources + right.sources,
            now,
        )(l, r) == Some(val_eq(key_of(l, keys.0), key_of(r, keys.1))),
{
    let p = qualified_position_from(left.columns, left.sources, ta@, fa@, 0).unwrap();
    let q = qualified_position_from(right.columns, right.sources, tb@, fb@, 0).unwrap();
    lemma_qualified_first(left.columns, left.sources, ta@, fa@, 0);
    lemma_qualified_first(right.columns, right.sources, tb@, fb@, 0);
    lemma_qualified_in_concat(left.columns, left.sources, right.columns, right.sources, ta@, fa@, 0);
    lemma_qualified_in_concat(left.columns, left.sources, right.columns, right.sources, tb@, fb@, 0);
    reveal(pair_test);
    let env = EvalEnv { columns: left.columns + right.columns, sources: left.sources + right.sources, row: l + r, now: now };
    assert(cell_at(l + r, Some(p)) == key_of(l, p));
    assert(cell_at(l + r, Some(left.columns.len() + q)) == key_of(r, q));
    assert(eval(Expression::QualifiedIdent { table: ta, field: fa }, env) == Some(key_of(l, p)));
    assert(eval(Expression::QualifiedIdent { table: tb, field: fb }, env) == Some(key_of(r, q)));
}

/// The two ways of running a join on `ta.fa = tb.fb` (inner, left, right
/// or full), for a column `fa` from table `ta` of the left result and a
/// column `fb` from table `tb` that only the right result has, give the
/// same columns and the same rows (in their own orders). For outer joins
/// this needs the hash join's padding to agree (see [`pads_alike`]).
pub proof fn lemma_qualified_join_strategies_agree(
    left: ResultView,
    right: ResultView,
    ta: String,
    fa: String,
    tb: String,
    fb: String,
    kind: JoinKind,
    now: Seq<char>,
)
    requires
        kind != JoinKind::Cross,
        kind == JoinKind::Inner || pads_alike(left, right),
        splits_sides_qualified(left, right, ta, fa, tb, fb),
        forall|j: int| 0 <= j < left.rows.len() ==> (#[trigger] left.rows[j]).len() == left.columns.len(),
    ensures
        hash_join_view(left, right, qualified_equality(ta, fa, tb, fb), kind) matches Some(h) && nested_join_view(
            left,
            right,
            qualified_equality(ta, fa, tb, fb),
            kind,
            None,
            now,
        ) matches Some(n) && h.columns == n.columns && h.sources == n.sources && h.rows.to_multiset()
            == n.rows.to_multiset() && forall|x: Seq<Val>| #[trigger] h.rows.contains(x) <==> n.rows.contains(x),
{
    let cond = qualified_equality(ta, fa, tb, fb);
    let lr = left.rows;
    let rr = right.rows;
    lemma_qualified_equality_test(
        left,
        right,
        ta,
        fa,
        tb,
        fb,
        now,
        Seq::new(left.columns.len(), |i: int| Val::Null),
        Seq::empty(),
    );
    assert forall|i: int, j: int| 0 <= i < lr.len() && 0 <= j < rr.len() implies #[trigger] cond_test(
        cond,
        left.columns + right.columns,
        left.sources + right.sources,
        now,
    )(lr[i], rr[j]) == Some(
        val_eq(
            key_of(lr[i], equi_columns(cond, left.columns, left.sources, right.columns, right.sources).unwrap().0),
            key_of(rr[j], equi_columns(cond, left.columns, left.sources, right.columns, right.sources).unwrap().1),
        ),
    ) by {
        lemma_qualified_equality_test(left, right, ta, fa, tb, fb, now, lr[i], rr[j]);
    }
    lemma_agree_on_keys(left, right, cond, kind, now);
}

proof fn lemma_hash_matched_width(
    build: Seq<Seq<Val>>,
    probe: Seq<Seq<Val>>,
    bk: int,
    pk: int,
    build_is_right: bool,
    m: int,
    build_width: nat,
    probe_width: nat,
)
    requires
        0 <= m <= probe.len(),
        forall|j: int| 0 <= j < build.len() ==> (#[trigger] build[j]).len() == build_width,
        forall|j: int| 0 <= j < probe.len() ==> (#[trigger] probe[j]).len() == probe_width,
    ensures
        forall|t: int|
            0 <= t < hash_matched(build, probe, bk, pk, build_is_right, m).len() ==> (#[trigger] hash_matched(
                build,
                probe,
                bk,
                pk,
                build_is_right,
                m,
            )[t]).len() == build_width + probe_width,
    decreases m,
{
    if m > 0 {
        lemma_hash_matched_width(build, probe, bk, pk, build_is_right, m - 1, build_width, probe_width);
        let key = key_of(probe[m - 1], pk);
        let idxs = matching_indices(build, bk, key, build.len() as int);
        lemma_matching_bounded(build, bk, key, build.len() as int);
        let before = hash_matched(build, probe, bk, pk, build_is_right, m - 1);
        let added = joined_with(build, probe[m - 1], idxs, build_is_right);
        assert(hash_matched(build, probe, bk, pk, build_is_right, m) == before + added);
        assert forall|t: int| 0 <= t < (before + added).len() implies (#[trigger] (before + added)[t]).len()
            == build_width + probe_width by {
            if t >= before.len() {
                let u = t - before.len();
                assert(0 <= idxs[u] < build.len());
                assert(added[u] == if build_is_right {
                    probe[m - 1] + build[idxs[u]]
                } else {
                    build[idxs[u]] + probe[m - 1]
                });
            }
        }
    }
}

proof fn lemma_unpartnered_width(
    rows: Seq<Seq<Val>>,
    k: int,
    others: Seq<Seq<Val>>,
    ok: int,
    width: nat,
    nulls_first: bool,
    row_width: nat,
)
    requires
        forall|j: int| 0 <= j < rows.len() ==> (#[trigger] rows[j]).len() == row_width,
    ensures
        forall|t: int|
            0 <= t < unpartnered(rows, k, others, ok, width, nulls_first).len() ==> (#[trigger] unpartnered(
                rows,
                k,
                others,
                ok,
                width,
                nulls_first,
            )[t]).len() == row_width + width,
    decreases rows.len(),
{
    if rows.len() > 0 {
        let rest = rows.drop_last();
        assert forall|j: int| 0 <= j < rest.len() implies (#[trigger] rest[j]).len() == row_width by {
            assert(rest[j] == rows[j]);
        }
        lemma_unpartnered_width(rest, k, others, ok, width, nulls_first, row_width);
        let before = unpartnered(rest, k, others, ok, width, nulls_first);
        let last = rows[rows.len() - 1];
        assert(rows.last() == last);
        assert(nulls(width).len() == width);
        let all = unpartnered(rows, k, others, ok, width, nulls_first);
        assert forall|t: int| 0 <= t < all.len() implies (#[trigger] all[t]).len() == row_width + width by {
            if t < before.len() {
                assert(all[t] == before[t]);
            } else if nulls_first {
                assert(all[t] == nulls(width) + last);
            } else {
                assert(all[t] == last + nulls(width));
            }
        }
    }
}

/// Every row of a hash join has a cell for each of its columns, the left
/// columns followed by the right ones, when every row of each side has a
/// cell for each column of its side: for inner joins always, for outer
/// joins where the hash join pads as the nested-loop join does (see
/// [`pads_alike`]). The joined result keeps the columns' sources and
/// reports no elapsed time and no affected rows.
pub proof fn lemma_hash_join_row_width(left: ResultView, right: ResultView, cond: Expression, kind: JoinKind)
    requires
        kind == JoinKind::Inner || kind == JoinKind::Cross || pads_alike(left, right),
        forall|j: int| 0 <= j < left.rows.len() ==> (#[trigger] left.rows[j]).len() == left.columns.len(),
        forall|j: int| 0 <= j < right.rows.len() ==> (#[trigger] right.rows[j]).len() == right.columns.len(),
    ensures
        hash_join_view(left, right, cond, kind) matches Some(h) ==> {
            &&& h.columns == left.columns + right.columns
            &&& h.sources == left.sources + right.sources
            &&& h.elapsed_ms == 0
            &&& h.rows_affected == 0
            &&& forall|t: int| 0 <= t < h.rows.len() ==> (#[trigger] h.rows[t]).len() == left.columns.len()
                + right.columns.len()
        },
{
    if let Some(keys) = equi_columns(cond, left.columns, left.sources, right.columns, right.sources) {
        let (lk, rk) = keys;
        let lr = left.rows;
        let rr = right.rows;
        let lw = left.columns.len();
        let rw = right.columns.len();
        let matched = if lr.len() <= rr.len() {
            hash_matched(lr, rr, lk, rk, false, rr.len() as int)
        } else {
            hash_matched(rr, lr, rk, lk, true, lr.len() as int)
        };
        if lr.len() <= rr.len() {
            lemma_hash_matched_width(lr, rr, lk, rk, false, rr.len() as int, lw, rw);
        } else {
            lemma_hash_matched_width(rr, lr, rk, lk, true, lr.len() as int, rw, lw);
        }
        let (lpad, rpad) = if lr.len() <= rr.len() {
            (rw, lw)
        } else {
            (lw, rw)
        };
        let ua = unpartnered(lr, lk, rr, rk, lpad, false);
        let ub = unpartnered(rr, rk, lr, lk, rpad, true);
        lemma_unpartnered_width(lr, lk, rr, rk, lpad, false, lw);
        lemma_unpartnered_width(rr, rk, lr, lk, rpad, true, rw);
        let h = hash_join_rows(lr, rr, lk, rk, kind, lw, rw);
        let with_left = if keeps_left(kind) {
            matched + ua
        } else {
            matched
        };
        assert forall|t: int| 0 <= t < with_left.len() implies (#[trigger] with_left[t]).len() == lw + rw by {
            if keeps_left(kind) && t >= matched.len() {
                assert(with_left[t] == ua[t - matched.len()]);
            }
        }
        assert forall|t: int| 0 <= t < h.len() implies (#[trigger] h[t]).len() == lw + rw by {
            if keeps_right(kind) && t >= with_left.len() {
                assert(h[t] == ub[t - with_left.len()]);
            } else {
                assert(h[t] == with_left[t]);
            }
        }
    }
}

proof fn lemma_scan_within_limit(
    left: Seq<Seq<Val>>,
    right: Seq<Seq<Val>>,
    test: spec_fn(Seq<Val>, Seq<Val>) -> Option<bool>,
    lim: u64,
    li: int,
    ri: int,
    rows: Seq<Seq<Val>>,
)
    requires
        rows.len() < lim || rows.len() == 0,
    ensures
        scanned_rows(scan_pairs(left, right, test, Some(lim), li, ri, rows)).len() <= if lim == 0 {
            1
        } else {
            lim as int
        },
    decreases left.len() - li, right.len() - ri,
{
    if li < 0 || li >= left.len() {
    } else if ri < 0 || ri >= right.len() {
        lemma_scan_within_limit(left, right, test, lim, li + 1, 0, rows);
    } else {
        match test(left[li], right[ri]) {
            None => {},
            Some(keep) => {
                let kept = if keep {
                    rows.push(left[li] + right[ri])
                } else {
                    rows
                };
                if !(kept.len() >= lim) {
                    lemma_scan_within_limit(left, right, test, lim, li, ri + 1, kept);
                }
            },
        }
    }
}

/// A cross join or an inner nested-loop join with a limit returns at most
/// that many rows; a limit of zero still lets the first kept row through.
pub proof fn lemma_limit_bounds_rows(
    left: Seq<Seq<Val>>,
    right: Seq<Seq<Val>>,
    test: spec_fn(Seq<Val>, Seq<Val>) -> Option<bool>,
    lim: u64,
    left_width: nat,
    right_width: nat,
)
    ensures
        cross_join_rows(left, right, Some(lim)).len() <= if lim == 0 {
            1
        } else {
            lim as int
        },
        nested_join_rows(left, right, test, JoinKind::Inner, Some(lim), left_width, right_width) matches Some(rows)
            ==> rows.len() <= if lim == 0 {
            1
        } else {
            lim as int
        },
{
    lemma_scan_within_limit(left, right, every_pair(), lim, 0, 0, Seq::empty());
    lemma_scan_within_limit(left, right, test, lim, 0, 0, Seq::empty());
}

proof fn lemma_unmatched_left_has(
    left: Seq<Seq<Val>>,
    right: Seq<Seq<Val>>,
    test: spec_fn(Seq<Val>, Seq<Val>) -> Option<bool>,
    width: nat,
    n: int,
    i: int,
)
    requires
        0 <= i < n <= left.len(),
        !left_matched(left, right, test, i),
    ensures
        unmatched_left(left, right, test, width, n).contains(left[i] + nulls(width)),
    decreases n,
{
    let before = unmatched_left(left, right, test, width, n - 1);
    if i < n - 1 {
        lemma_unmatched_left_has(left, right, test, width, n - 1, i);
        let k = choose|k: int| 0 <= k < before.len() && before[k] == left[i] + nulls(width);
        if !left_matched(left, right, test, n - 1) {
            assert(before.push(left[n - 1] + nulls(width))[k] == left[i] + nulls(width));
        }
    } else {
        assert(before.push(left[i] + nulls(width))[before.len() as int] == left[i] + nulls(width));
    }
}

proof fn lemma_contains_in_concat(a: Seq<Seq<Val>>, b: Seq<Seq<Val>>, x: Seq<Val>)
    ensures
        a.contains(x) ==> (a + b).contains(x),
        b.contains(x) ==> (a + b).contains(x),
{
    if a.contains(x) {
        let k = choose|k: int| 0 <= k < a.len() && a[k] == x;
        assert((a + b)[k] == x);
    }
    if b.contains(x) {
        let k = choose|k: int| 0 <= k < b.len() && b[k] == x;
        assert((a + b)[a.len() + k] == x);
    }
}

/// A left (or full) nested-loop join without a limit, whose condition can
/// be evaluated on every pair, keeps every left row: joined with each right
/// row it matches, or followed by nulls when it matches none.
pub proof fn lemma_left_join_keeps_left_rows(
    left: Seq<Seq<Val>>,
    right: Seq<Seq<Val>>,
    test: spec_fn(Seq<Val>, Seq<Val>) -> Option<bool>,
    kind: JoinKind,
    left_width: nat,
    right_width: nat,
    i: int,
)
    requires
        kind == JoinKind::Left || kind == JoinKind::Full,
        0 <= i < left.len(),
        forall|x: int, y: int| 0 <= x < left.len() && 0 <= y < right.len() ==> (#[trigger] test(left[x], right[y])) is Some,
    ensures
        nested_join_rows(left, right, test, kind, None, left_width, right_width) matches Some(rows) && (forall|j: int|
            0 <= j < right.len() && test(left[i], right[j]) == Some(true) ==> rows.contains(
                #[trigger] (left[i] + right[j]),
            )) && (!left_matched(left, right, test, i) ==> rows.contains(left[i] + nulls(right_width))),
{
    lemma_scan_keeps_matches(left, right, test, 0, 0, Seq::empty());
    let scanned = scanned_rows(scan_pairs(left, right, test, None, 0, 0, Seq::empty()));
    let um = unmatched_left(left, right, test, right_width, left.len() as int);
    let rows = nested_join_rows(left, right, test, kind, None, left_width, right_width).unwrap();
    let with_left = scanned + um;
    let rest = if kind == JoinKind::Full {
        crate::joins_spec::unmatched_right(left, right, test, left_width, right.len() as int)
    } else {
        Seq::empty()
    };
    assert(rows == with_left + rest || rows == with_left);
    assert forall|j: int| 0 <= j < right.len() && test(left[i], right[j]) == Some(true) implies rows.contains(
        #[trigger] (left[i] + right[j]),
    ) by {
        assert(pair_from(i, j, 0, 0, left.len() as int, right.len() as int));
        assert(scanned.contains(left[i] + right[j]));
        lemma_contains_in_concat(scanned, um, left[i] + right[j]);
        lemma_contains_in_concat(with_left, rest, left[i] + right[j]);
    }
    if !left_matched(left, right, test, i) {
        lemma_unmatched_left_has(left, right, test, right_width, left.len() as int, i);
        lemma_contains_in_concat(scanned, um, left[i] + nulls(right_width));
        lemma_contains_in_concat(with_left, rest, left[i] + nulls(right_width));
    }
}

proof fn lemma_unpartnered_has(rows: Seq<Seq<Val>>, k: int, others: Seq<Seq<Val>>, ok: int, width: nat, i: int)
    requires
        0 <= i < rows.len(),
        !has_partner(rows[i], k, others, ok),
    ensures
        unpartnered(rows, k, others, ok, width, false).contains(rows[i] + nulls(width)),
    decreases rows.len(),
{
    let before = unpartnered(rows.drop_last(), k, others, ok, width, false);
    let x = rows[i] + nulls(width);
    if i < rows.len() - 1 {
        assert(rows.drop_last()[i] == rows[i]);
        lemma_unpartnered_has(rows.drop_last(), k, others, ok, width, i);
        let t = choose|t: int| 0 <= t < before.len() && before[t] == x;
        if !has_partner(rows.last(), k, others, ok) {
            assert(before.push(rows.last() + nulls(width))[t] == x);
        }
    } else {
        assert(before.push(rows.last() + nulls(width))[before.len() as int] == x);
    }
}

/// A left (or full) hash join keeps every left row: joined with each right
/// row whose key cell equals its own, or followed by nulls when there is
/// none (as many as the right side has columns when the left side is
/// built, as many as the left side has when the right side is built).
pub proof fn lemma_left_hash_join_keeps_left_rows(
    left: Seq<Seq<Val>>,
    right: Seq<Seq<Val>>,
    lk: int,
    rk: int,
    kind: JoinKind,
    left_width: nat,
    right_width: nat,
    i: int,
)
    requires
        kind == JoinKind::Left || kind == JoinKind::Full,
        0 <= i < left.len(),
    ensures
        forall|j: int|
            0 <= j < right.len() && val_eq(key_of(left[i], lk), key_of(right[j], rk)) ==> hash_join_rows(
                left,
                right,
                lk,
                rk,
                kind,
                left_width,
                right_width,
            ).contains(#[trigger] (left[i] + right[j])),
        !has_partner(left[i], lk, right, rk) ==> hash_join_rows(left, right, lk, rk, kind, left_width, right_width).contains(
            left[i] + nulls(if left.len() <= right.len() { right_width } else { left_width }),
        ),
{
    let matched = if left.len() <= right.len() {
        hash_matched(left, right, lk, rk, false, right.len() as int)
    } else {
        hash_matched(right, left, rk, lk, true, left.len() as int)
    };
    let pad = if left.len() <= right.len() {
        right_width
    } else {
        left_width
    };
    let um = unpartnered(left, lk, right, rk, pad, false);
    let with_left = matched + um;
    let rows = hash_join_rows(left, right, lk, rk, kind, left_width, right_width);
    let rest = if kind == JoinKind::Full {
        unpartnered(right, rk, left, lk, if left.len() <= right.len() { left_width } else { right_width }, true)
    } else {
        Seq::empty()
    };
    assert(rows == with_left + rest || rows == with_left);
    assert forall|j: int|
        0 <= j < right.len() && val_eq(key_of(left[i], lk), key_of(right[j], rk)) implies rows.contains(
        #[trigger] (left[i] + right[j]),
    ) by {
        if left.len() <= right.len() {
            lemma_hash_matched_has(left, right, lk, rk, false, right.len() as int, j, i);
        } else {
            lemma_val_eq_symmetric(key_of(left[i], lk), key_of(right[j], rk));
            lemma_hash_matched_has(right, left, rk, lk, true, left.len() as int, i, j);
        }
        lemma_contains_in_concat(matched, um, left[i] + right[j]);
        lemma_contains_in_concat(with_left, rest, left[i] + right[j]);
    }
    if !has_partner(left[i], lk, right, rk) {
        lemma_unpartnered_has(left, lk, right, rk, pad, i);
        lemma_contains_in_concat(matched, um, left[i] + nulls(pad));
        lemma_contains_in_concat(with_left, rest, left[i] + nulls(pad));
    }
}

/// A bare name resolves to the first column with that name, and to none
/// when no column has it.
pub proof fn lemma_name_resolves_to_first(columns: Seq<Seq<char>>, name: Seq<char>, s: int)
    requires
        0 <= s,
    ensures
        match position_from(columns, name, s) {
            Some(i) => s <= i < columns.len() && columns[i] == name && forall|k: int|
                s <= k < i ==> #[trigger] columns[k] != name,
            None => forall|k: int| s <= k < columns.len() ==> #[trigger] columns[k] != name,
        },
    decreases columns.len() - s,
{
    if s < columns.len() {
        lemma_name_resolves_to_first(columns, name, s + 1);
    }
}

proof fn lemma_qualified_first(
    columns: Seq<Seq<char>>,
    sources: Seq<Option<Seq<char>>>,
    table: Seq<char>,
    field: Seq<char>,
    s: int,
)
    requires
        0 <= s,
    ensures
        match qualified_position_from(columns, sources, table, field, s) {
            Some(i) => s <= i < columns.len() && qualified_at(columns, sources, table, field, i) && forall|k: int|
                s <= k < i ==> !#[trigger] qualified_at(columns, sources, table, field, k),
            None => forall|k: int| s <= k < columns.len() ==> !#[trigger] qualified_at(columns, sources, table, field, k),
        },
    decreases columns.len() - s,
{
    if s < columns.len() {
        lemma_qualified_first(columns, sources, table, field, s + 1);
    }
}

/// A qualified name `table.field` resolves to the first column named
/// `field` whose source is `table`; when there is none, to the first column
/// named `field`; and to none when no column has that name.
pub proof fn lemma_qualified_name_resolves(
    columns: Seq<Seq<char>>,
    sources: Seq<Option<Seq<char>>>,
    table: Seq<char>,
    field: Seq<char>,
)
    ensures
        (exists|k: int| 0 <= k < columns.len() && #[trigger] qualified_at(columns, sources, table, field, k))
            ==> (qualified_position(columns, sources, table, field) matches Some(i) && 0 <= i < columns.len()
            && columns[i] == field && i < sources.len() && sources[i] == Some(table) && forall|k: int|
            0 <= k < i ==> !#[trigger] qualified_at(columns, sources, table, field, k)),
        !(exists|k: int| 0 <= k < columns.len() && #[trigger] qualified_at(columns, sources, table, field, k))
            ==> qualified_position(columns, sources, table, field) == position_from(columns, field, 0),
{
    lemma_qualified_first(columns, sources, table, field, 0);
}

/// Evaluating a column reference (a bare or a qualified name) gives the
/// cell at the column it resolves to, as the join's column lookup resolves
/// it; `Null` when it resolves to none or the row is shorter.
pub proof fn lemma_column_reference_value(e: Expression, env: EvalEnv)
    requires
        e is Ident || e is QualifiedIdent,
    ensures
        eval(e, env) == Some(cell_at(env.row, column_of(e, env.columns, env.sources))),
{
}

proof fn lemma_side_position_in_range(
    e: Expression,
    lc: Seq<Seq<char>>,
    ls: Seq<Option<Seq<char>>>,
    rc: Seq<Seq<char>>,
    rs: Seq<Option<Seq<char>>>,
)
    ensures
        side_position(e, lc, ls, rc, rs) matches Some(p) ==> (if p.1 {
            0 <= p.0 < rc.len()
        } else {
            0 <= p.0 < lc.len()
        }),
        side_position(e, lc, ls, rc, rs) is Some ==> (e is Ident || e is QualifiedIdent),
{
    match e {
        Expression::Ident(name) => {
            lemma_name_resolves_to_first(lc, name@, 0);
            lemma_name_resolves_to_first(rc, name@, 0);
        },
        Expression::QualifiedIdent { table, field } => {
            lemma_qualified_first(lc, ls, table@, field@, 0);
            lemma_qualified_first(rc, rs, table@, field@, 0);
            lemma_name_resolves_to_first(lc, field@, 0);
            lemma_name_resolves_to_first(rc, field@, 0);
        },
        _ => {},
    }
}

/// The key columns of an equi-join exist only for an equality of two
/// column references, and then are a left column and a right column.
pub proof fn lemma_equi_columns_in_range(
    cond: Expression,
    lc: Seq<Seq<char>>,
    ls: Seq<Option<Seq<char>>>,
    rc: Seq<Seq<char>>,
    rs: Seq<Option<Seq<char>>>,
)
    ensures
        equi_columns(cond, lc, ls, rc, rs) matches Some(k) ==> (0 <= k.0 < lc.len() && 0 <= k.1 < rc.len()),
        equi_columns(cond, lc, ls, rc, rs) is Some ==> (cond matches Expression::BinaryOp { op: BinaryOp::Eq, left, right }
            && (*left is Ident || *left is QualifiedIdent) && (*right is Ident || *right is QualifiedIdent)),
{
    match cond {
        Expression::BinaryOp { op: BinaryOp::Eq, left, right } => {
            lemma_side_position_in_range(*left, lc, ls, rc, rs);
            lemma_side_position_in_range(*right, lc, ls, rc, rs);
            match (field_name(*left), field_name(*right)) {
                (Some(ln), Some(rn)) => {
                    lemma_name_resolves_to_first(lc, ln, 0);
                    lemma_name_resolves_to_first(rc, rn, 0);
                },
                _ => {},
            }
        },
        _ => {},
    }
}

/// An equality of two column references.
pub open spec fn equality(a: Expression, b: Expression) -> Expression {
    Expression::BinaryOp { op: BinaryOp::Eq, left: Box::new(a), right: Box::new(b) }
}

/// When the two operands of `=` resolve to different sides, swapping them
/// gives the same key columns.
pub proof fn lemma_equi_columns_swap(
    a: Expression,
    b: Expression,
    lc: Seq<Seq<char>>,
    ls: Seq<Option<Seq<char>>>,
    rc: Seq<Seq<char>>,
    rs: Seq<Option<Seq<char>>>,
)
    requires
        side_position(a, lc, ls, rc, rs) matches Some(x) && side_position(b, lc, ls, rc, rs) matches Some(y) && x.1
            != y.1,
    ensures
        equi_columns(equality(a, b), lc, ls, rc, rs) == equi_columns(equality(b, a), lc, ls, rc, rs),
        equi_columns(equality(a, b), lc, ls, rc, rs) is Some,
{
}

/// A scan without a limit never stops at one, and its kept rows extend the
/// rows it started with.
proof fn lemma_unlimited_scan_extends(
    left: Seq<Seq<Val>>,
    right: Seq<Seq<Val>>,
    test: spec_fn(Seq<Val>, Seq<Val>) -> Option<bool>,
    li: int,
    ri: int,
    rows: Seq<Seq<Val>>,
)
    ensures
        !(scan_pairs(left, right, test, None, li, ri, rows) is Limited),
        scan_pairs(left, right, test, None, li, ri, rows) matches Scan::Finished(f) ==> rows.is_prefix_of(f),
    decreases left.len() - li, right.len() - ri,
{
    if li < 0 || li >= left.len() {
        assert(rows =~= rows.subrange(0, rows.len() as int));
    } else if ri < 0 || ri >= right.len() {
        lemma_unlimited_scan_extends(left, right, test, li + 1, 0, rows);
    } else {
        match test(left[li], right[ri]) {
            None => {},
            Some(keep) => {
                let kept = if keep {
                    rows.push(left[li] + right[ri])
                } else {
                    rows
                };
                lemma_unlimited_scan_extends(left, right, test, li, ri + 1, kept);
                if let Scan::Finished(f) = scan_pairs(left, right, test, None, li, ri + 1, kept) {
                    assert(rows =~= f.subrange(0, rows.len() as int)) by {
                        assert forall|k: int| 0 <= k < rows.len() implies rows[k] == f[k] by {
                            assert(kept[k] == rows[k]);
                            assert(kept[k] == f.subrange(0, kept.len() as int)[k]);
                        }
                    }
                }
            },
        }
    }
}

/// A scan with limit `n` stops at a prefix of what the unlimited scan
/// keeps, or keeps the same rows; starting below the limit, it stops with
/// exactly `n` rows, or finishes below it.
proof fn lemma_limited_scan(
    left: Seq<Seq<Val>>,
    right: Seq<Seq<Val>>,
    test: spec_fn(Seq<Val>, Seq<Val>) -> Option<bool>,
    n: u64,
    li: int,
    ri: int,
    rows: Seq<Seq<Val>>,
)
    ensures
        scan_pairs(left, right, test, None, li, ri, rows) matches Scan::Finished(f) ==> match scan_pairs(
            left,
            right,
            test,
            Some(n),
            li,
            ri,
            rows,
        ) {
            Scan::Finished(g) => g == f && (rows.len() < n ==> f.len() < n),
            Scan::Limited(p) => p.is_prefix_of(f) && (rows.len() < n ==> p.len() == n),
            Scan::Stuck => false,
        },
    decreases left.len() - li, right.len() - ri,
{
    if li < 0 || li >= left.len() {
    } else if ri < 0 || ri >= right.len() {
        lemma_limited_scan(left, right, test, n, li + 1, 0, rows);
    } else {
        match test(left[li], right[ri]) {
            None => {},
            Some(keep) => {
                let kept = if keep {
                    rows.push(left[li] + right[ri])
                } else {
                    rows
                };
                if kept.len() >= n {
                    lemma_unlimited_scan_extends(left, right, test, li, ri + 1, kept);
                } else {
                    lemma_limited_scan(left, right, test, n, li, ri + 1, kept);
                }
            },
        }
    }
}

/// The smaller of two integers.
pub open spec fn min_int(a: int, b: int) -> int {
    if a <= b {
        a
    } else {
        b
    }
}

/// A nested-loop join with a limit gives the columns of the unlimited join
/// and a prefix of its rows. For an inner or a cross join with a limit of
/// at least one, that prefix holds as many rows as the limit, or all of
/// them when there are fewer.
pub proof fn lemma_limited_join_is_prefix(
    left: ResultView,
    right: ResultView,
    cond: Expression,
    kind: JoinKind,
    n: u64,
    now: Seq<char>,
)
    requires
        nested_join_view(left, right, cond, kind, Some(n), now) is Some,
        nested_join_view(left, right, cond, kind, None, now) is Some,
    ensures
        nested_join_view(left, right, cond, kind, Some(n), now) matches Some(a) && nested_join_view(
            left,
            right,
            cond,
            kind,
            None,
            now,
        ) matches Some(b) && a.columns == b.columns && a.sources == b.sources && a.rows.is_prefix_of(b.rows)
            && ((kind == JoinKind::Inner || kind == JoinKind::Cross) && n >= 1 ==> a.rows.len() == min_int(
            n as int,
            b.rows.len() as int,
        )),
{
    let lr = left.rows;
    let rr = right.rows;
    let test = if kind == JoinKind::Cross {
        every_pair()
    } else {
        cond_test(cond, left.columns + right.columns, left.sources + right.sources, now)
    };
    lemma_unlimited_scan_extends(lr, rr, test, 0, 0, Seq::empty());
    lemma_limited_scan(lr, rr, test, n, 0, 0, Seq::empty());
    if kind == JoinKind::Cross {
        lemma_scan_every_pair(lr, rr, 0, 0, Seq::empty());
    }
    let a = nested_join_view(left, right, cond, kind, Some(n), now).unwrap();
    let b = nested_join_view(left, right, cond, kind, None, now).unwrap();
    match scan_pairs(lr, rr, test, None, 0, 0, Seq::empty()) {
        Scan::Finished(f) => {
            match scan_pairs(lr, rr, test, Some(n), 0, 0, Seq::empty()) {
                Scan::Limited(p) => {
                    assert(a.rows == p);
                    assert(f.is_prefix_of(b.rows)) by {
                        assert(f =~= b.rows.subrange(0, f.len() as int));
                    }
                    assert(p =~= b.rows.subrange(0, p.len() as int)) by {
                        assert forall|k: int| 0 <= k < p.len() implies p[k] == b.rows[k] by {
                            assert(p[k] == f.subrange(0, p.len() as int)[k]);
                            assert(f[k] == b.rows.subrange(0, f.len() as int)[k]);
                        }
                    }
                },
                Scan::Finished(g) => {
                    assert(a.rows == b.rows);
                    assert(a.rows =~= b.rows.subrange(0, a.rows.len() as int));
                },
                Scan::Stuck => {},
            }
        },
        _ => {},
    }
}

/// Whether a column reference names `name`: a bare name, or the field of a
/// qualified one.
pub open spec fn refers_to(e: Expression, name: Seq<char>) -> bool {
    match e {
        Expression::Ident(n) => n@ == name,
        Expression::QualifiedIdent { table: _, field } => field@ == name,
        _ => false,
    }
}

/// When both operands of `=` are column references that resolve to the
/// same side, each is looked up by name on its own side, the left operand
/// among the left columns and the right operand among the right ones: the
/// condition is an equi-join exactly when both names are found there, and
/// its keys are then the first column of each name.
pub proof fn lemma_same_side_equality_by_own_side(
    x: Expression,
    y: Expression,
    ln: Seq<char>,
    rn: Seq<char>,
    left_cols: Seq<Seq<char>>,
    left_sources: Seq<Option<Seq<char>>>,
    right_cols: Seq<Seq<char>>,
    right_sources: Seq<Option<Seq<char>>>,
)
    requires
        refers_to(x, ln),
        refers_to(y, rn),
        (side_position(x, left_cols, left_sources, right_cols, right_sources) matches Some(p) && side_position(
            y,
            left_cols,
            left_sources,
            right_cols,
            right_sources,
        ) matches Some(q) && p.1 == q.1),
    ensures
        equi_columns(equality(x, y), left_cols, left_sources, right_cols, right_sources) is Some <==> ((exists|l: int|
            0 <= l < left_cols.len() && #[trigger] left_cols[l] == ln) && (exists|r: int|
            0 <= r < right_cols.len() && #[trigger] right_cols[r] == rn)),
        equi_columns(equality(x, y), left_cols, left_sources, right_cols, right_sources) matches Some(k) ==> {
            &&& 0 <= k.0 < left_cols.len()
            &&& left_cols[k.0] == ln
            &&& forall|i: int| 0 <= i < k.0 ==> #[trigger] left_cols[i] != ln
            &&& 0 <= k.1 < right_cols.len()
            &&& right_cols[k.1] == rn
            &&& forall|i: int| 0 <= i < k.1 ==> #[trigger] right_cols[i] != rn
        },
{
    lemma_name_resolves_to_first(left_cols, ln, 0);
    lemma_name_resolves_to_first(right_cols, rn, 0);
    assert(field_name(x) == Some(ln));
    assert(field_name(y) == Some(rn));
}

} // verus!
