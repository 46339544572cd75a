//! What a nested loop join delivers, row by row, and that it is what a hash
//! join delivers but for the order.

use vstd::multiset::Multiset;
use vstd::prelude::*;
use vstd::seq_lib::lemma_multiset_commutative;

use crate::batch::{batch_of, BatchView};
use crate::error::ErrorKind;
use crate::expr::expr::{eval, ExprView};
use crate::logical_plan::plan::{JoinType, PlanView};
use crate::physical_plan::join::hash_join::{
    build_side, joined_columns, pairs_below, probe_side,
};
use crate::physical_plan::join::nested_loop::{
    broadcast_columns, match_mask, nested_pairs, run_nested_loop, true_pairs,
};
use crate::physical_plan::join::rows::{
    condition_holds, joined, lemma_joined_batch, lemma_materialized, partners, rows_of_pairs,
};
use crate::physical_plan::limit::stream_rows;
use crate::physical_plan::plan::{
    exec_schema, lemma_eval_rows, materialized, run, take_columns, ExecView,
};
use crate::physical_plan::planner::{batches_evaluate_like_rows, exec_of, physical_of};
use crate::physical_plan::rows::{
    delivered, flawless, items_of, lemma_stream_rows_one, runs_tidily, Row,
};
use crate::physical_plan::sort_rows::runs_under_its_schema;
use crate::types::schema::FieldView;
use crate::types::value::ValueView;

verus! {

/// The right rows that go with a left row, each joined with it.
pub open spec fn right_partners(
    goes: spec_fn(Row, Row) -> bool,
    l: Row,
    right: Seq<Row>,
) -> Seq<Row>
    decreases right.len(),
{
    if right.len() == 0 {
        seq![]
    } else {
        let before = right_partners(goes, l, right.drop_last());
        if goes(l, right.last()) {
            before.push(l + right.last())
        } else {
            before
        }
    }
}

/// The pairs of rows that go together, joined: by left row, then by right row.
pub open spec fn joined_by_left(
    goes: spec_fn(Row, Row) -> bool,
    left: Seq<Row>,
    right: Seq<Row>,
) -> Seq<Row>
    decreases left.len(),
{
    if left.len() == 0 {
        seq![]
    } else {
        joined_by_left(goes, left.drop_last(), right) + right_partners(goes, left.last(), right)
    }
}

/// Whether the row that two rows make passes a condition.
pub open spec fn together_pass(f: ExprView) -> spec_fn(Row, Row) -> bool {
    |l: Row, r: Row| condition_holds(Some(f), l + r)
}

/// Whether a condition has a value on every pair of rows.
pub open spec fn defined_together(f: ExprView, left: Seq<Row>, right: Seq<Row>) -> bool {
    forall|i: int, j: int|
        0 <= i < left.len() && 0 <= j < right.len() ==> eval(
            f,
            #[trigger] left[i] + #[trigger] right[j],
        ) is Ok
}

// ---------------------------------------------------------------------------
// The order

proof fn lemma_one_more_right(
    goes: spec_fn(Row, Row) -> bool,
    left: Seq<Row>,
    right: Seq<Row>,
)
    requires
        right.len() > 0,
    ensures
        joined_by_left(goes, left, right).to_multiset() == joined_by_left(
            goes,
            left,
            right.drop_last(),
        ).to_multiset().add(partners(goes, left, right.last()).to_multiset()),
    decreases left.len(),
{
    broadcast use vstd::seq_lib::group_to_multiset_ensures;

    let rest = right.drop_last();
    let r = right.last();
    if left.len() == 0 {
        assert(joined_by_left(goes, left, right).to_multiset() =~= Multiset::empty().add(
            Multiset::empty(),
        ));
    } else {
        let up = left.drop_last();
        let l = left.last();
        lemma_one_more_right(goes, up, right);
        let a = joined_by_left(goes, up, right);
        let b = joined_by_left(goes, up, rest);
        let c = right_partners(goes, l, right);
        let d = right_partners(goes, l, rest);
        let e = partners(goes, up, r);
        lemma_multiset_commutative(a, c);
        lemma_multiset_commutative(b, d);
        if goes(l, r) {
            assert(c.to_multiset() =~= d.to_multiset().insert(l + r));
            assert(partners(goes, left, r).to_multiset() =~= e.to_multiset().insert(l + r));
        }
        assert(joined_by_left(goes, left, right).to_multiset() =~= joined_by_left(
            goes,
            left,
            rest,
        ).to_multiset().add(partners(goes, left, r).to_multiset()));
    }
}

/// By left row or by right row, the same pairs are joined.
pub proof fn joining_by_either_side_gives_the_same_rows(
    goes: spec_fn(Row, Row) -> bool,
    left: Seq<Row>,
    right: Seq<Row>,
)
    ensures
        joined_by_left(goes, left, right).to_multiset() == joined(
            goes,
            left,
            right,
        ).to_multiset(),
    decreases right.len(),
{
    if right.len() == 0 {
        lemma_no_right(goes, left, right);
        assert(joined_by_left(goes, left, right) =~= joined(goes, left, right));
    } else {
        let rest = right.drop_last();
        joining_by_either_side_gives_the_same_rows(goes, left, rest);
        lemma_one_more_right(goes, left, right);
        lemma_multiset_commutative(
            joined(goes, left, rest),
            partners(goes, left, right.last()),
        );
    }
}

proof fn lemma_no_right(goes: spec_fn(Row, Row) -> bool, left: Seq<Row>, right: Seq<Row>)
    requires
        right.len() == 0,
    ensures
        joined_by_left(goes, left, right) == Seq::<Row>::empty(),
    decreases left.len(),
{
    if left.len() > 0 {
        lemma_no_right(goes, left.drop_last(), right);
        assert(joined_by_left(goes, left, right) =~= Seq::<Row>::empty());
    }
}

// ---------------------------------------------------------------------------
// The join

proof fn lemma_true_pairs(
    f: ExprView,
    mask: Seq<ValueView>,
    left: Seq<Row>,
    right: Seq<Row>,
    i: int,
    n: nat,
)
    requires
        0 <= i < left.len() <= usize::MAX,
        n <= right.len() <= usize::MAX,
        forall|k: int|
            0 <= k < right.len() ==> eval(f, left[i] + #[trigger] right[k]) == Ok::<
                ValueView,
                ErrorKind,
            >(mask[k]),
    ensures
        pairs_below(true_pairs(mask, i, n), left.len(), right.len()),
        rows_of_pairs(left, right, true_pairs(mask, i, n)) == right_partners(
            together_pass(f),
            left[i],
            right.take(n as int),
        ),
    decreases n,
{
    let all = true_pairs(mask, i, n);
    let some = right.take(n as int);
    if n == 0 {
        assert(rows_of_pairs(left, right, all) =~= right_partners(together_pass(f), left[i], some));
    } else {
        let m = (n - 1) as nat;
        lemma_true_pairs(f, mask, left, right, i, m);
        let before = true_pairs(mask, i, m);
        assert(some.drop_last() =~= right.take(m as int));
        assert(some.last() == right[m as int]);
        assert(rows_of_pairs(left, right, all) =~= right_partners(
            together_pass(f),
            left[i],
            some,
        ));
        assert forall|k: int| 0 <= k < all.len() implies (#[trigger] all[k]).0 < left.len()
            && all[k].1 < right.len() by {
            if k < before.len() {
                assert(all[k] == before[k]);
            }
        }
    }
}

/// A left row beside each right row.
proof fn lemma_broadcast(b: BatchView, p: BatchView, schema: Seq<FieldView>, i: int)
    requires
        b.wf(),
        p.wf(),
        0 <= i < b.num_rows <= usize::MAX,
        p.num_rows > 0,
    ensures
        batch_of(schema, broadcast_columns(b, p, i)).num_rows == p.num_rows,
        forall|k: int|
            0 <= k < p.num_rows ==> #[trigger] batch_of(schema, broadcast_columns(b, p, i)).row(k)
                == b.rows()[i] + p.rows()[k],
{
    let columns = broadcast_columns(b, p, i);
    let one = Seq::new(p.num_rows, |k: int| Some(i as usize));
    let taken = take_columns(b.columns, one);
    let all = batch_of(schema, columns);
    if b.columns.len() > 0 {
        assert(columns[0] == taken[0]);
    } else {
        assert(columns[0] == p.columns[0]);
    }
    assert forall|k: int| 0 <= k < p.num_rows implies #[trigger] all.row(k) == b.rows()[i]
        + p.rows()[k] by {
        assert(b.rows()[i] == b.row(i));
        assert(p.rows()[k] == p.row(k));
        assert forall|c: int| 0 <= c < columns.len() implies all.row(k)[c] == (b.row(i) + p.row(
            k,
        ))[c] by {
            if c < taken.len() {
                assert(columns[c] == taken[c]);
            } else {
                assert(columns[c] == p.columns[c - taken.len()]);
            }
        }
        assert(all.row(k) =~= b.row(i) + p.row(k));
    }
}

proof fn lemma_nested_pairs(
    b: BatchView,
    p: BatchView,
    f: ExprView,
    schema: Seq<FieldView>,
    n: nat,
)
    requires
        b.wf(),
        p.wf(),
        n <= b.num_rows <= usize::MAX,
        0 < p.num_rows <= usize::MAX,
        physical_of(f) is Ok,
        nested_pairs(b, p, physical_of(f)->Ok_0, schema, n) is Ok,
    ensures
        ({
            let pairs = nested_pairs(b, p, physical_of(f)->Ok_0, schema, n)->Ok_0;
            &&& pairs_below(pairs, b.num_rows, p.num_rows)
            &&& rows_of_pairs(b.rows(), p.rows(), pairs) == joined_by_left(
                together_pass(f),
                b.rows().take(n as int),
                p.rows(),
            )
            &&& defined_together(f, b.rows().take(n as int), p.rows())
        }),
    decreases n,
{
    let x = physical_of(f)->Ok_0;
    let pairs = nested_pairs(b, p, x, schema, n)->Ok_0;
    let left = b.rows();
    let right = p.rows();
    if n == 0 {
        assert(rows_of_pairs(left, right, pairs) =~= joined_by_left(
            together_pass(f),
            left.take(0),
            right,
        ));
    } else {
        let m = (n - 1) as nat;
        let i = n - 1;
        lemma_nested_pairs(b, p, f, schema, m);
        let before = nested_pairs(b, p, x, schema, m)->Ok_0;
        let mask = match_mask(b, p, x, schema, i)->Ok_0;
        let all = batch_of(schema, broadcast_columns(b, p, i));
        lemma_broadcast(b, p, schema, i);
        lemma_eval_rows(x, all);
        assert forall|k: int| 0 <= k < right.len() implies eval(f, left[i] + #[trigger] right[k])
            == Ok::<ValueView, ErrorKind>(mask[k]) by {
            batches_evaluate_like_rows(f, all, k);
            assert(all.row(k) == left[i] + right[k]);
        }
        lemma_true_pairs(f, mask, left, right, i, right.len());
        assert(right.take(right.len() as int) =~= right);
        let new = true_pairs(mask, i, right.len());
        assert(pairs == before + new);
        assert(rows_of_pairs(left, right, pairs) =~= rows_of_pairs(left, right, before)
            + rows_of_pairs(left, right, new));
        assert(left.take(n as int).drop_last() =~= left.take(m as int));
        assert(left.take(n as int).last() == left[i]);
        assert forall|h: int, j: int| 0 <= h < n && 0 <= j < right.len() implies eval(
            f,
            #[trigger] left.take(n as int)[h] + #[trigger] right[j],
        ) is Ok by {
            if h < m {
                assert(left.take(n as int)[h] == left.take(m as int)[h]);
            }
        }
        assert forall|k: int| 0 <= k < pairs.len() implies (#[trigger] pairs[k]).0 < b.num_rows
            && pairs[k].1 < p.num_rows by {
            if k < before.len() {
                assert(pairs[k] == before[k]);
            } else {
                assert(pairs[k] == new[k - before.len()]);
            }
        }
    }
}

proof fn lemma_nested_join(b: BatchView, p: BatchView, f: ExprView, schema: Seq<FieldView>)
    requires
        b.wf(),
        p.wf(),
        b.num_rows <= usize::MAX,
        p.num_rows <= usize::MAX,
        physical_of(f) is Ok,
        run_nested_loop(b, p, physical_of(f)->Ok_0, schema) is Ok,
    ensures
        ({
            let out = run_nested_loop(b, p, physical_of(f)->Ok_0, schema)->Ok_0;
            &&& flawless(out)
            &&& stream_rows(out) == joined_by_left(together_pass(f), b.rows(), p.rows())
            &&& defined_together(f, b.rows(), p.rows())
        }),
{
    let x = physical_of(f)->Ok_0;
    let left = b.rows();
    let right = p.rows();
    let pairs = if b.num_rows > 0 && p.num_rows > 0 {
        nested_pairs(b, p, x, schema, b.num_rows)->Ok_0
    } else {
        seq![]
    };
    assert(pairs_below(pairs, b.num_rows, p.num_rows) && rows_of_pairs(left, right, pairs)
        == joined_by_left(together_pass(f), left, right) && defined_together(f, left, right)) by {
        if b.num_rows > 0 && p.num_rows > 0 {
            lemma_nested_pairs(b, p, f, schema, b.num_rows);
            assert(left.take(left.len() as int) =~= left);
        } else {
            if right.len() == 0 {
                lemma_no_right(together_pass(f), left, right);
            }
            assert(rows_of_pairs(left, right, pairs) =~= joined_by_left(
                together_pass(f),
                left,
                right,
            ));
        }
    }
    lemma_joined_batch(b, p, pairs, schema);
    let columns = joined_columns(b, p, build_side(pairs), probe_side(pairs));
    let item = Ok::<BatchView, ErrorKind>(batch_of(schema, columns));
    assert(run_nested_loop(b, p, x, schema)->Ok_0 =~= seq![item]);
    lemma_stream_rows_one(item);
}

/// Only an inner join can do without keys.
pub proof fn joins_without_keys_are_inner_joins(p: PlanView)
    requires
        p is Join,
        p->Join_on.len() == 0,
        items_of(p) is Some,
    ensures
        p->Join_join_type == JoinType::Inner,
{
    reveal(items_of);
    assert(exec_of(p) is Ok);
}

/// An inner join without keys delivers the pairs of rows that pass its
/// condition, joined: by left row, then by right row.
pub proof fn joins_without_keys_deliver_the_pairs_that_pass(
    left: PlanView,
    right: PlanView,
    on: Seq<(ExprView, ExprView)>,
    filter: Option<ExprView>,
    schema: Seq<FieldView>,
)
    requires
        on.len() == 0,
        runs_tidily(left),
        runs_tidily(right),
        runs_under_its_schema(left),
        runs_under_its_schema(right),
        delivered(left) matches Some(rows) ==> rows.len() <= usize::MAX,
        delivered(right) matches Some(rows) ==> rows.len() <= usize::MAX,
        delivered(
            PlanView::Join {
                left: Box::new(left),
                right: Box::new(right),
                on,
                filter,
                join_type: JoinType::Inner,
                schema,
            },
        ) is Some,
    ensures
        delivered(left) is Some,
        delivered(right) is Some,
        filter is Some,
        defined_together(filter->Some_0, delivered(left)->Some_0, delivered(right)->Some_0),
        delivered(
            PlanView::Join {
                left: Box::new(left),
                right: Box::new(right),
                on,
                filter,
                join_type: JoinType::Inner,
                schema,
            },
        ) == Some(
            joined_by_left(
                together_pass(filter->Some_0),
                delivered(left)->Some_0,
                delivered(right)->Some_0,
            ),
        ),
{
    let q = PlanView::Join {
        left: Box::new(left),
        right: Box::new(right),
        on,
        filter,
        join_type: JoinType::Inner,
        schema,
    };
    reveal(items_of);
    assert(exec_of(q) is Ok);
    assert(exec_of(left) is Ok);
    assert(exec_of(right) is Ok);
    assert(filter is Some);
    let f = filter->Some_0;
    assert(physical_of(f) is Ok);
    let x = physical_of(f)->Ok_0;
    let build = exec_of(left)->Ok_0;
    let probe = exec_of(right)->Ok_0;
    assert(exec_of(q)->Ok_0 == (ExecView::NestedLoopJoin {
        build: Box::new(build),
        probe: Box::new(probe),
        predicate: x,
        schema,
    }));
    assert(run(build, 0) is Ok);
    assert(run(probe, 0) is Ok);
    let bi = run(build, 0)->Ok_0;
    let pi = run(probe, 0)->Ok_0;
    assert(materialized(exec_schema(build), bi) is Ok);
    assert(materialized(exec_schema(probe), pi) is Ok);
    let b = materialized(exec_schema(build), bi)->Ok_0;
    let p = materialized(exec_schema(probe), pi)->Ok_0;
    assert(items_of(left) == Some(bi));
    assert(items_of(right) == Some(pi));
    lemma_materialized(exec_schema(build), bi);
    lemma_materialized(exec_schema(probe), pi);
    assert(b.rows().len() == b.num_rows);
    assert(p.rows().len() == p.num_rows);
    let out = run_nested_loop(b, p, x, schema);
    assert(items_of(q) == Some(out->Ok_0));
    lemma_nested_join(b, p, f, schema);
}

} // verus!
