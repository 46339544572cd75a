//! What a hash join of any type delivers, row by row.

use vstd::prelude::*;

use crate::batch::{batch_of, BatchView};
use crate::compute::indices_below;
use crate::error::ErrorKind;
use crate::expr::expr::ExprView;
use crate::logical_plan::plan::{plan_schema, JoinType, PlanView};
use crate::physical_plan::filter::lemma_taken_fit;
use crate::physical_plan::join::hash_join::{
    build_hits, joined_columns, outer_rows, output_columns, pairs_below, probe_hits, rows_where,
    run_hash_join,
};
use crate::physical_plan::join::rows::{
    condition_defined, go_together, joined, left_keys, lemma_join_pairs, lemma_joined_same,
    lemma_materialized, physical_filter, right_keys, rows_of_pairs,
};
use crate::physical_plan::plan::{exec_schema, materialized, run, take_columns, ExecView};
use crate::physical_plan::planner::{
    exec_of, operator_type, operators_keep_the_schema_of_plans, physical_pairs,
};
use crate::physical_plan::rows::{
    all_defined, delivered, items_of, lemma_stream_rows_one, runs_tidily, Row,
};
use crate::physical_plan::sort_rows::runs_under_its_schema;
use crate::types::schema::FieldView;
use crate::types::value::ValueView;

verus! {

/// Whether a right row goes with some left row.
pub open spec fn has_left_partner(
    goes: spec_fn(Row, Row) -> bool,
    left: Seq<Row>,
    r: Row,
) -> bool {
    exists|i: int| 0 <= i < left.len() && goes(#[trigger] left[i], r)
}

/// Whether a left row goes with some right row.
pub open spec fn has_right_partner(
    goes: spec_fn(Row, Row) -> bool,
    l: Row,
    right: Seq<Row>,
) -> bool {
    exists|j: int| 0 <= j < right.len() && goes(l, #[trigger] right[j])
}

/// The rows that meet a condition, in order.
pub open spec fn rows_that(meets: spec_fn(Row) -> bool, rows: Seq<Row>) -> Seq<Row>
    decreases rows.len(),
{
    if rows.len() == 0 {
        seq![]
    } else {
        let before = rows_that(meets, rows.drop_last());
        if meets(rows.last()) {
            before.push(rows.last())
        } else {
            before
        }
    }
}

/// The right rows with a partner, or those without.
pub open spec fn right_rows(
    goes: spec_fn(Row, Row) -> bool,
    left: Seq<Row>,
    right: Seq<Row>,
    matched: bool,
) -> Seq<Row> {
    rows_that(|r: Row| has_left_partner(goes, left, r) == matched, right)
}

/// The left rows with a partner, or those without.
pub open spec fn left_rows(
    goes: spec_fn(Row, Row) -> bool,
    left: Seq<Row>,
    right: Seq<Row>,
    matched: bool,
) -> Seq<Row> {
    rows_that(|l: Row| has_right_partner(goes, l, right) == matched, left)
}

/// A row of nulls.
pub open spec fn nulls(n: nat) -> Row {
    Seq::new(n, |i: int| ValueView::Null)
}

/// Rows with nulls before them.
pub open spec fn behind_nulls(n: nat, rows: Seq<Row>) -> Seq<Row> {
    Seq::new(rows.len(), |i: int| nulls(n) + rows[i])
}

/// Rows with nulls behind them.
pub open spec fn before_nulls(rows: Seq<Row>, n: nat) -> Seq<Row> {
    Seq::new(rows.len(), |i: int| rows[i] + nulls(n))
}

/// What a join of two lists of rows is: the pairs that go together and, behind
/// them, the rows without a partner that the type keeps, the right ones first.
/// `Left` keeps the left rows, `Right` the right rows and `Full` both; a semi
/// or anti join delivers rows of the side that it is named after.
pub open spec fn join_rows(
    join_type: JoinType,
    goes: spec_fn(Row, Row) -> bool,
    left: Seq<Row>,
    right: Seq<Row>,
    left_width: nat,
    right_width: nat,
) -> Seq<Row> {
    let lone_right = behind_nulls(left_width, right_rows(goes, left, right, false));
    let lone_left = before_nulls(left_rows(goes, left, right, false), right_width);
    match join_type {
        JoinType::Inner => joined(goes, left, right),
        JoinType::Left => joined(goes, left, right) + lone_left,
        JoinType::Right => joined(goes, left, right) + lone_right,
        JoinType::Full => joined(goes, left, right) + lone_right + lone_left,
        JoinType::LeftSemi => left_rows(goes, left, right, true),
        JoinType::LeftAnti => left_rows(goes, left, right, false),
        JoinType::RightSemi => right_rows(goes, left, right, true),
        JoinType::RightAnti => right_rows(goes, left, right, false),
    }
}

proof fn lemma_rows_that_same(
    a: spec_fn(Row) -> bool,
    b: spec_fn(Row) -> bool,
    rows: Seq<Row>,
)
    requires
        forall|i: int| 0 <= i < rows.len() ==> a(#[trigger] rows[i]) == b(rows[i]),
    ensures
        rows_that(a, rows) == rows_that(b, rows),
    decreases rows.len(),
{
    if rows.len() > 0 {
        let rest = rows.drop_last();
        assert forall|i: int| 0 <= i < rest.len() implies a(#[trigger] rest[i]) == b(rest[i]) by {
            assert(rest[i] == rows[i]);
        }
        lemma_rows_that_same(a, b, rest);
        assert(rows.last() == rows[rows.len() - 1]);
    }
}

/// Joins whose rows go together alike give the same rows.
pub proof fn lemma_join_rows_same(
    join_type: JoinType,
    a: spec_fn(Row, Row) -> bool,
    b: spec_fn(Row, Row) -> bool,
    left: Seq<Row>,
    right: Seq<Row>,
    left_width: nat,
    right_width: nat,
)
    requires
        forall|i: int, j: int|
            0 <= i < left.len() && 0 <= j < right.len() ==> #[trigger] a(left[i], right[j]) == b(
                left[i],
                right[j],
            ),
    ensures
        join_rows(join_type, a, left, right, left_width, right_width) == join_rows(
            join_type,
            b,
            left,
            right,
            left_width,
            right_width,
        ),
{
    lemma_joined_same(a, b, left, right);
    lemma_sides_same(a, b, left, right, true);
    lemma_sides_same(a, b, left, right, false);
}

proof fn lemma_partner_same(
    a: spec_fn(Row, Row) -> bool,
    b: spec_fn(Row, Row) -> bool,
    left: Seq<Row>,
    right: Seq<Row>,
    j: int,
)
    requires
        0 <= j < right.len(),
        forall|i: int| 0 <= i < left.len() ==> #[trigger] a(left[i], right[j]) == b(
            left[i],
            right[j],
        ),
    ensures
        has_left_partner(a, left, right[j]) == has_left_partner(b, left, right[j]),
{
    if has_left_partner(a, left, right[j]) {
        let i = choose|i: int| 0 <= i < left.len() && a(#[trigger] left[i], right[j]);
        assert(b(left[i], right[j]));
    }
    if has_left_partner(b, left, right[j]) {
        let i = choose|i: int| 0 <= i < left.len() && b(#[trigger] left[i], right[j]);
        assert(a(left[i], right[j]));
    }
}

proof fn lemma_other_partner_same(
    a: spec_fn(Row, Row) -> bool,
    b: spec_fn(Row, Row) -> bool,
    left: Seq<Row>,
    right: Seq<Row>,
    i: int,
)
    requires
        0 <= i < left.len(),
        forall|j: int| 0 <= j < right.len() ==> #[trigger] a(left[i], right[j]) == b(
            left[i],
            right[j],
        ),
    ensures
        has_right_partner(a, left[i], right) == has_right_partner(b, left[i], right),
{
    if has_right_partner(a, left[i], right) {
        let j = choose|j: int| 0 <= j < right.len() && a(left[i], #[trigger] right[j]);
        assert(b(left[i], right[j]));
    }
    if has_right_partner(b, left[i], right) {
        let j = choose|j: int| 0 <= j < right.len() && b(left[i], #[trigger] right[j]);
        assert(a(left[i], right[j]));
    }
}

proof fn lemma_sides_same(
    a: spec_fn(Row, Row) -> bool,
    b: spec_fn(Row, Row) -> bool,
    left: Seq<Row>,
    right: Seq<Row>,
    matched: bool,
)
    requires
        forall|i: int, j: int|
            0 <= i < left.len() && 0 <= j < right.len() ==> #[trigger] a(left[i], right[j]) == b(
                left[i],
                right[j],
            ),
    ensures
        right_rows(a, left, right, matched) == right_rows(b, left, right, matched),
        left_rows(a, left, right, matched) == left_rows(b, left, right, matched),
{
    assert forall|j: int| 0 <= j < right.len() implies has_left_partner(a, left, #[trigger] right[j])
        == has_left_partner(b, left, right[j]) by {
        lemma_partner_same(a, b, left, right, j);
    }
    assert forall|i: int| 0 <= i < left.len() implies has_right_partner(a, #[trigger] left[i], right)
        == has_right_partner(b, left[i], right) by {
        lemma_other_partner_same(a, b, left, right, i);
    }
    lemma_rows_that_same(
        |r: Row| has_left_partner(a, left, r) == matched,
        |r: Row| has_left_partner(b, left, r) == matched,
        right,
    );
    lemma_rows_that_same(
        |l: Row| has_right_partner(a, l, right) == matched,
        |l: Row| has_right_partner(b, l, right) == matched,
        left,
    );
}

// ---------------------------------------------------------------------------
// Rows taken from a side

/// The row at a place; nulls where there is none.
spec fn picked(rows: Seq<Row>, width: nat, k: Option<usize>) -> Row {
    match k {
        Some(i) => rows[i as int],
        None => nulls(width),
    }
}

/// The rows at places.
spec fn all_picked(rows: Seq<Row>, width: nat, places: Seq<Option<usize>>) -> Seq<Row> {
    Seq::new(places.len(), |k: int| picked(rows, width, places[k]))
}

/// The rows of two sides, side by side.
spec fn beside(a: Seq<Row>, b: Seq<Row>) -> Seq<Row> {
    Seq::new(a.len(), |k: int| a[k] + b[k])
}

proof fn lemma_taken_rows(
    b: BatchView,
    places: Seq<Option<usize>>,
    k: int,
    c: int,
)
    requires
        b.wf(),
        indices_below(places, b.num_rows),
        0 <= k < places.len(),
        0 <= c < b.columns.len(),
    ensures
        take_columns(b.columns, places)[c].values.len() == places.len(),
        take_columns(b.columns, places)[c].values[k] == picked(
            b.rows(),
            b.columns.len(),
            places[k],
        )[c],
{
    match places[k] {
        Some(i) => {
            assert(i < b.num_rows);
            assert(b.rows()[i as int] == b.row(i as int));
        },
        None => {},
    }
}

/// The rows of two sides gathered at places.
proof fn lemma_beside_rows(
    b: BatchView,
    p: BatchView,
    bs: Seq<Option<usize>>,
    ps: Seq<Option<usize>>,
    schema: Seq<FieldView>,
)
    requires
        b.wf(),
        p.wf(),
        bs.len() == ps.len(),
        indices_below(bs, b.num_rows),
        indices_below(ps, p.num_rows),
        forall|k: int| 0 <= k < bs.len() ==> (#[trigger] bs[k]) is Some || ps[k] is Some,
    ensures
        batch_of(schema, joined_columns(b, p, bs, ps)).rows() == beside(
            all_picked(b.rows(), b.columns.len(), bs),
            all_picked(p.rows(), p.columns.len(), ps),
        ),
{
    let columns = joined_columns(b, p, bs, ps);
    let x = take_columns(b.columns, bs);
    let y = take_columns(p.columns, ps);
    let all = batch_of(schema, columns);
    let rows = beside(
        all_picked(b.rows(), b.columns.len(), bs),
        all_picked(p.rows(), p.columns.len(), ps),
    );
    lemma_taken_fit(b, bs);
    lemma_taken_fit(p, ps);
    if columns.len() == 0 {
        if bs.len() > 0 {
            assert(bs[0] is Some || ps[0] is Some);
        }
    } else {
        if x.len() > 0 {
            assert(columns[0] == x[0]);
        } else {
            assert(columns[0] == y[0]);
        }
    }
    assert(all.num_rows == bs.len());
    assert forall|k: int| 0 <= k < bs.len() implies #[trigger] all.rows()[k] == rows[k] by {
        let u = picked(b.rows(), b.columns.len(), bs[k]);
        let v = picked(p.rows(), p.columns.len(), ps[k]);
        lemma_picked_width(b, bs, k);
        lemma_picked_width(p, ps, k);
        assert forall|c: int| 0 <= c < columns.len() implies all.row(k)[c] == (u + v)[c] by {
            if c < x.len() {
                assert(columns[c] == x[c]);
                lemma_taken_rows(b, bs, k, c);
            } else {
                assert(columns[c] == y[c - x.len()]);
                lemma_taken_rows(p, ps, k, c - x.len());
            }
        }
        assert(all.row(k) =~= u + v);
    }
    assert(all.rows() =~= rows);
}

proof fn lemma_picked_width(b: BatchView, places: Seq<Option<usize>>, k: int)
    requires
        b.wf(),
        indices_below(places, b.num_rows),
        0 <= k < places.len(),
    ensures
        picked(b.rows(), b.columns.len(), places[k]).len() == b.columns.len(),
{
    match places[k] {
        Some(i) => {
            assert(i < b.num_rows);
            assert(b.rows()[i as int] == b.row(i as int));
        },
        None => {},
    }
}

/// The rows of one side gathered at places.
proof fn lemma_one_side_rows(b: BatchView, places: Seq<Option<usize>>, schema: Seq<FieldView>)
    requires
        b.wf(),
        indices_below(places, b.num_rows),
        forall|k: int| 0 <= k < places.len() ==> (#[trigger] places[k]) is Some,
    ensures
        batch_of(schema, take_columns(b.columns, places)).rows() == all_picked(
            b.rows(),
            b.columns.len(),
            places,
        ),
{
    let columns = take_columns(b.columns, places);
    let all = batch_of(schema, columns);
    let rows = all_picked(b.rows(), b.columns.len(), places);
    lemma_taken_fit(b, places);
    if columns.len() == 0 {
        if places.len() > 0 {
            assert(places[0] is Some);
        }
    }
    assert(all.num_rows == places.len());
    assert forall|k: int| 0 <= k < places.len() implies #[trigger] all.rows()[k] == rows[k] by {
        lemma_picked_width(b, places, k);
        assert forall|c: int| 0 <= c < columns.len() implies all.row(k)[c] == rows[k][c] by {
            lemma_taken_rows(b, places, k, c);
        }
        assert(all.row(k) =~= rows[k]);
    }
    assert(all.rows() =~= rows);
}

/// The rows whose flag is as wanted.
proof fn lemma_flagged_rows(
    flags: Seq<bool>,
    want: bool,
    rows: Seq<Row>,
    width: nat,
    meets: spec_fn(Row) -> bool,
    n: nat,
)
    requires
        n <= rows.len() <= usize::MAX,
        flags.len() == rows.len(),
        forall|i: int| 0 <= i < rows.len() ==> meets(#[trigger] rows[i]) == (flags[i] == want),
    ensures
        indices_below(rows_where(flags, want, n), rows.len()),
        forall|k: int|
            0 <= k < rows_where(flags, want, n).len() ==> (#[trigger] rows_where(
                flags,
                want,
                n,
            )[k]) is Some,
        all_picked(rows, width, rows_where(flags, want, n)) == rows_that(
            meets,
            rows.take(n as int),
        ),
    decreases n,
{
    let all = rows_where(flags, want, n);
    let some = rows.take(n as int);
    if n == 0 {
        assert(all_picked(rows, width, all) =~= rows_that(meets, some));
    } else {
        let m = (n - 1) as nat;
        lemma_flagged_rows(flags, want, rows, width, meets, m);
        let before = rows_where(flags, want, m);
        assert(some.drop_last() =~= rows.take(m as int));
        assert(some.last() == rows[m as int]);
        assert(meets(rows[m as int]) == (flags[m as int] == want));
        assert forall|k: int| 0 <= k < all.len() implies (#[trigger] all[k]) is Some && all[k]->0
            < rows.len() by {
            if k < before.len() {
                assert(all[k] == before[k]);
                assert(before[k] is Some);
            }
        }
        assert(all_picked(rows, width, all) =~= rows_that(meets, some));
    }
}

// ---------------------------------------------------------------------------
// The join

/// The flags of a join say which rows have a partner.
proof fn lemma_hits(
    goes: spec_fn(Row, Row) -> bool,
    left: Seq<Row>,
    right: Seq<Row>,
    pairs: Seq<(usize, usize)>,
)
    requires
        left.len() <= usize::MAX,
        right.len() <= usize::MAX,
        pairs_below(pairs, left.len(), right.len()),
        forall|i: usize, j: usize|
            i < left.len() && j < right.len() ==> (#[trigger] pairs.contains((i, j)) <==> goes(
                left[i as int],
                right[j as int],
            )),
    ensures
        forall|j: int|
            0 <= j < right.len() ==> #[trigger] probe_hits(pairs, right.len())[j]
                == has_left_partner(goes, left, right[j]),
        forall|i: int|
            0 <= i < left.len() ==> #[trigger] build_hits(pairs, left.len())[i]
                == has_right_partner(goes, left[i], right),
{
    assert forall|j: int| 0 <= j < right.len() implies #[trigger] probe_hits(pairs, right.len())[j]
        == has_left_partner(goes, left, right[j]) by {
        if probe_hits(pairs, right.len())[j] {
            let k = choose|k: int| 0 <= k < pairs.len() && (#[trigger] pairs[k]).1 == j;
            assert(pairs.contains((pairs[k].0, pairs[k].1)));
            assert(goes(left[pairs[k].0 as int], right[j]));
        }
        if has_left_partner(goes, left, right[j]) {
            let i = choose|i: int| 0 <= i < left.len() && goes(#[trigger] left[i], right[j]);
            assert(pairs.contains((i as usize, j as usize)));
            let k = choose|k: int| 0 <= k < pairs.len() && pairs[k] == (i as usize, j as usize);
            assert(pairs[k].1 == j);
        }
    }
    assert forall|i: int| 0 <= i < left.len() implies #[trigger] build_hits(pairs, left.len())[i]
        == has_right_partner(goes, left[i], right) by {
        if build_hits(pairs, left.len())[i] {
            let k = choose|k: int| 0 <= k < pairs.len() && (#[trigger] pairs[k]).0 == i;
            assert(pairs.contains((pairs[k].0, pairs[k].1)));
            assert(goes(left[i], right[pairs[k].1 as int]));
        }
        if has_right_partner(goes, left[i], right) {
            let j = choose|j: int| 0 <= j < right.len() && goes(left[i], #[trigger] right[j]);
            assert(pairs.contains((i as usize, j as usize)));
            let k = choose|k: int| 0 <= k < pairs.len() && pairs[k] == (i as usize, j as usize);
            assert(pairs[k].0 == i);
        }
    }
}

/// The rows that the operator of a join puts out, with the left input as its
/// build side.
proof fn lemma_output_rows(
    b: BatchView,
    p: BatchView,
    goes: spec_fn(Row, Row) -> bool,
    pairs: Seq<(usize, usize)>,
    join_type: JoinType,
    schema: Seq<FieldView>,
)
    requires
        b.wf(),
        p.wf(),
        b.num_rows <= usize::MAX,
        p.num_rows <= usize::MAX,
        pairs_below(pairs, b.num_rows, p.num_rows),
        rows_of_pairs(b.rows(), p.rows(), pairs) == joined(goes, b.rows(), p.rows()),
        forall|i: usize, j: usize|
            i < b.num_rows && j < p.num_rows ==> (#[trigger] pairs.contains((i, j)) <==> goes(
                b.rows()[i as int],
                p.rows()[j as int],
            )),
    ensures
        batch_of(schema, output_columns(b, p, pairs, operator_type(join_type))).rows()
            == join_rows(
            join_type,
            goes,
            b.rows(),
            p.rows(),
            b.columns.len(),
            p.columns.len(),
        ),
{
    let left = b.rows();
    let right = p.rows();
    let lw = b.columns.len();
    let rw = p.columns.len();
    let ph = probe_hits(pairs, p.num_rows);
    let bh = build_hits(pairs, b.num_rows);
    lemma_hits(goes, left, right, pairs);
    let right_with = |r: Row| has_left_partner(goes, left, r) == true;
    let right_without = |r: Row| has_left_partner(goes, left, r) == false;
    let left_with = |l: Row| has_right_partner(goes, l, right) == true;
    let left_without = |l: Row| has_right_partner(goes, l, right) == false;
    lemma_flagged_rows(ph, true, right, rw, right_with, p.num_rows);
    lemma_flagged_rows(ph, false, right, rw, right_without, p.num_rows);
    lemma_flagged_rows(bh, true, left, lw, left_with, b.num_rows);
    lemma_flagged_rows(bh, false, left, lw, left_without, b.num_rows);
    assert(right.take(p.num_rows as int) =~= right);
    assert(left.take(b.num_rows as int) =~= left);
    assert(right_rows(goes, left, right, true) == rows_that(right_with, right));
    assert(right_rows(goes, left, right, false) == rows_that(right_without, right));
    assert(left_rows(goes, left, right, true) == rows_that(left_with, left));
    assert(left_rows(goes, left, right, false) == rows_that(left_without, left));
    match join_type {
        JoinType::RightSemi => {
            lemma_one_side_rows(p, rows_where(ph, true, p.num_rows), schema);
        },
        JoinType::RightAnti => {
            lemma_one_side_rows(p, rows_where(ph, false, p.num_rows), schema);
        },
        JoinType::LeftSemi => {
            lemma_one_side_rows(b, rows_where(bh, true, b.num_rows), schema);
        },
        JoinType::LeftAnti => {
            lemma_one_side_rows(b, rows_where(bh, false, b.num_rows), schema);
        },
        _ => {
            lemma_outer_output(b, p, goes, pairs, join_type, schema);
        },
    }
}

/// The rows that a join puts out on both sides.
proof fn lemma_outer_output(
    b: BatchView,
    p: BatchView,
    goes: spec_fn(Row, Row) -> bool,
    pairs: Seq<(usize, usize)>,
    join_type: JoinType,
    schema: Seq<FieldView>,
)
    requires
        b.wf(),
        p.wf(),
        b.num_rows <= usize::MAX,
        p.num_rows <= usize::MAX,
        pairs_below(pairs, b.num_rows, p.num_rows),
        rows_of_pairs(b.rows(), p.rows(), pairs) == joined(goes, b.rows(), p.rows()),
        join_type == JoinType::Inner || join_type == JoinType::Left || join_type
            == JoinType::Right || join_type == JoinType::Full,
        ({
            let lone_probe = rows_where(probe_hits(pairs, p.num_rows), false, p.num_rows);
            let lone_build = rows_where(build_hits(pairs, b.num_rows), false, b.num_rows);
            &&& indices_below(lone_probe, p.num_rows)
            &&& indices_below(lone_build, b.num_rows)
            &&& forall|k: int| 0 <= k < lone_probe.len() ==> (#[trigger] lone_probe[k]) is Some
            &&& forall|k: int| 0 <= k < lone_build.len() ==> (#[trigger] lone_build[k]) is Some
            &&& all_picked(p.rows(), p.columns.len(), lone_probe) == right_rows(
                goes,
                b.rows(),
                p.rows(),
                false,
            )
            &&& all_picked(b.rows(), b.columns.len(), lone_build) == left_rows(
                goes,
                b.rows(),
                p.rows(),
                false,
            )
        }),
    ensures
        ({
            let places = outer_rows(
                pairs,
                operator_type(join_type),
                b.num_rows,
                p.num_rows,
            );
            batch_of(schema, joined_columns(b, p, places.0, places.1)).rows() == join_rows(
                join_type,
                goes,
                b.rows(),
                p.rows(),
                b.columns.len(),
                p.columns.len(),
            )
        }),
{
    let left = b.rows();
    let right = p.rows();
    let lw = b.columns.len();
    let rw = p.columns.len();
    let lone_probe = rows_where(probe_hits(pairs, p.num_rows), false, p.num_rows);
    let lone_build = rows_where(build_hits(pairs, b.num_rows), false, b.num_rows);
    let (bs, ps) = outer_rows(pairs, operator_type(join_type), b.num_rows, p.num_rows);
    let n = pairs.len();
    let m = lone_probe.len();
    let rights = join_type == JoinType::Right || join_type == JoinType::Full;
    assert forall|k: int| 0 <= k < bs.len() implies {
        &&& ((#[trigger] bs[k]) matches Some(i) ==> i < b.num_rows)
        &&& (ps[k] matches Some(i) ==> i < p.num_rows)
        &&& bs[k] is Some || ps[k] is Some
    } by {
        if k < n {
            assert(bs[k] == Some(pairs[k].0));
            assert(ps[k] == Some(pairs[k].1));
            assert(pairs[k].0 < b.num_rows && pairs[k].1 < p.num_rows);
        } else if rights && k < n + m {
            assert(ps[k] == lone_probe[k - n]);
            assert(bs[k] is None);
        } else {
            let at = if rights {
                k - n - m
            } else {
                k - n
            };
            assert(bs[k] == lone_build[at]);
            assert(ps[k] is None);
        }
    }
    assert forall|k: int| 0 <= k < ps.len() implies ((#[trigger] ps[k]) matches Some(i) ==> i
        < p.num_rows) by {
        assert(bs[k] is Some || ps[k] is Some);
    }
    lemma_beside_rows(b, p, bs, ps, schema);
    let rows = beside(all_picked(left, lw, bs), all_picked(right, rw, ps));
    let inner = joined(goes, left, right);
    let lone_right = behind_nulls(lw, right_rows(goes, left, right, false));
    let lone_left = before_nulls(left_rows(goes, left, right, false), rw);
    assert forall|k: int| 0 <= k < bs.len() implies #[trigger] rows[k] == join_rows(
        join_type,
        goes,
        left,
        right,
        lw,
        rw,
    )[k] by {
        if k < n {
            assert(bs[k] == Some(pairs[k].0));
            assert(ps[k] == Some(pairs[k].1));
            assert(rows_of_pairs(left, right, pairs)[k] == rows[k]);
        } else if rights && k < n + m {
            assert(ps[k] == lone_probe[k - n]);
            assert(bs[k] is None);
            assert(all_picked(right, rw, lone_probe)[k - n] == picked(right, rw, ps[k]));
            assert(lone_right[k - n] == rows[k]);
        } else {
            let at = if rights {
                k - n - m
            } else {
                k - n
            };
            assert(bs[k] == lone_build[at]);
            assert(ps[k] is None);
            assert(all_picked(left, lw, lone_build)[at] == picked(left, lw, bs[k]));
            assert(lone_left[at] == rows[k]);
        }
    }
    assert(rows_of_pairs(left, right, pairs).len() == n);
    assert(all_picked(right, rw, lone_probe).len() == m);
    assert(all_picked(left, lw, lone_build).len() == lone_build.len());
    assert(rows =~= join_rows(join_type, goes, left, right, lw, rw));
}

/// A join with keys that can be planned and started runs to its end.
pub proof fn lemma_join_delivers(
    left: PlanView,
    right: PlanView,
    on: Seq<(ExprView, ExprView)>,
    filter: Option<ExprView>,
    join_type: JoinType,
    schema: Seq<FieldView>,
)
    requires
        on.len() > 0,
        runs_tidily(left),
        runs_tidily(right),
        runs_under_its_schema(left),
        runs_under_its_schema(right),
        delivered(left) matches Some(rows) ==> rows.len() <= usize::MAX,
        delivered(right) matches Some(rows) ==> rows.len() <= usize::MAX,
        items_of(
            PlanView::Join {
                left: Box::new(left),
                right: Box::new(right),
                on,
                filter,
                join_type,
                schema,
            },
        ) is Some,
    ensures
        delivered(left) is Some,
        delivered(right) is Some,
        delivered(
            PlanView::Join {
                left: Box::new(left),
                right: Box::new(right),
                on,
                filter,
                join_type,
                schema,
            },
        ) == Some(
            join_rows(
                join_type,
                go_together(on, filter),
                delivered(left)->Some_0,
                delivered(right)->Some_0,
                plan_schema(left).len(),
                plan_schema(right).len(),
            ),
        ),
        all_defined(left_keys(on), delivered(left)->Some_0),
        all_defined(right_keys(on), delivered(right)->Some_0),
        condition_defined(on, filter, delivered(left)->Some_0, delivered(right)->Some_0),
        runs_tidily(
            PlanView::Join {
                left: Box::new(left),
                right: Box::new(right),
                on,
                filter,
                join_type,
                schema,
            },
        ) <==> delivered(
            PlanView::Join {
                left: Box::new(left),
                right: Box::new(right),
                on,
                filter,
                join_type,
                schema,
            },
        )->Some_0.len() <= usize::MAX,
{
    let q = PlanView::Join {
        left: Box::new(left),
        right: Box::new(right),
        on,
        filter,
        join_type,
        schema,
    };
    reveal(items_of);
    assert(exec_of(q) is Ok);
    assert(exec_of(left) is Ok);
    assert(exec_of(right) is Ok);
    let build = exec_of(left)->Ok_0;
    let probe = exec_of(right)->Ok_0;
    operators_keep_the_schema_of_plans(left);
    operators_keep_the_schema_of_plans(right);
    assert(physical_pairs(on, on.len()) is Ok);
    let keys = physical_pairs(on, on.len())->Ok_0;
    assert(exec_of(q)->Ok_0 == (ExecView::HashJoin {
        build: Box::new(build),
        probe: Box::new(probe),
        on: keys,
        filter: physical_filter(filter),
        join_type: operator_type(join_type),
        schema,
    }));
    assert(run(build, 0) is Ok);
    assert(run(probe, 0) is Ok);
    let bi = run(build, 0)->Ok_0;
    let pi = run(probe, 0)->Ok_0;
    assert(materialized(exec_schema(build), bi) is Ok);
    assert(materialized(exec_schema(probe), pi) is Ok);
    let b = materialized(exec_schema(build), bi)->Ok_0;
    let p = materialized(exec_schema(probe), pi)->Ok_0;
    assert(items_of(left) == Some(bi));
    assert(items_of(right) == Some(pi));
    lemma_materialized(exec_schema(build), bi);
    lemma_materialized(exec_schema(probe), pi);
    assert(b.rows().len() == b.num_rows);
    assert(p.rows().len() == p.num_rows);
    let kind = operator_type(join_type);
    let out = run_hash_join(b, p, keys, physical_filter(filter), kind, schema);
    assert(items_of(q) == Some(out->Ok_0));
    let pairs = lemma_join_pairs(b, p, on, filter, kind, schema);
    lemma_output_rows(b, p, go_together(on, filter), pairs, join_type, schema);
    lemma_stream_rows_one(
        Ok::<BatchView, ErrorKind>(batch_of(schema, output_columns(b, p, pairs, kind))),
    );
}

/// A join with keys delivers the pairs of rows that match, and of the rows
/// without a match those that its type keeps, with nulls for the other side. A
/// semi join delivers the rows of one side that have a match, and an anti join
/// those that have none.
pub proof fn joins_with_keys_deliver_matches_and_kept_rows(
    left: PlanView,
    right: PlanView,
    on: Seq<(ExprView, ExprView)>,
    filter: Option<ExprView>,
    join_type: JoinType,
    schema: Seq<FieldView>,
)
    requires
        on.len() > 0,
        runs_tidily(left),
        runs_tidily(right),
        runs_under_its_schema(left),
        runs_under_its_schema(right),
        delivered(left) matches Some(rows) ==> rows.len() <= usize::MAX,
        delivered(right) matches Some(rows) ==> rows.len() <= usize::MAX,
        delivered(
            PlanView::Join {
                left: Box::new(left),
                right: Box::new(right),
                on,
                filter,
                join_type,
                schema,
            },
        ) is Some,
    ensures
        delivered(left) is Some,
        delivered(right) is Some,
        delivered(
            PlanView::Join {
                left: Box::new(left),
                right: Box::new(right),
                on,
                filter,
                join_type,
                schema,
            },
        ) == Some(
            join_rows(
                join_type,
                go_together(on, filter),
                delivered(left)->Some_0,
                delivered(right)->Some_0,
                plan_schema(left).len(),
                plan_schema(right).len(),
            ),
        ),
        all_defined(left_keys(on), delivered(left)->Some_0),
        all_defined(right_keys(on), delivered(right)->Some_0),
        condition_defined(on, filter, delivered(left)->Some_0, delivered(right)->Some_0),
{
    lemma_join_delivers(left, right, on, filter, join_type, schema);
}

} // verus!
