//! What moving a filter into an inner join keeps: the joined rows that pass it.

use vstd::prelude::*;

use crate::expr::expr::{eval, ExprView};
use crate::logical_plan::plan::{plan_schema, JoinType, PlanView};
use crate::optimizer::laws::{
    kept_all, lemma_filtered, lemma_kept_count, lemma_passes_push, same_rows, tidy_throughout,
};
use crate::optimizer::rules::common::{conjunction, conjuncts, equi_pair, lemma_conjuncts_nonempty};
use crate::optimizer::rules::eliminate_cross_join::{
    conjunction_of, leftover, promoted, without_cross_join,
};
use crate::optimizer::rules::predicate_pushdown::{
    filtered, joined_condition, keys_of, lemma_conjunction_passes, lemma_placed_at, nothing_moves,
    lemma_predicate_passes, passes, passes_all, placed, rebased, split_filters_pass_the_same_rows,
    through_join, Place,
};
use crate::physical_plan::join::hash_join::present_key;
use crate::physical_plan::join::nested_rows::{
    joined_by_left, joining_by_either_side_gives_the_same_rows,
    joins_without_keys_deliver_the_pairs_that_pass, right_partners, together_pass,
};
use crate::physical_plan::join::rows::{
    condition_holds, go_together, inner_joins_deliver_the_pairs_that_match, joined, keys_match,
    left_keys, lemma_joined_same, lemma_kept_joined, partners, right_keys,
};
use crate::physical_plan::rows::{
    delivered, filters_deliver_the_rows_that_pass, kept, lemma_kept_concat, runs_tidily,
    values_on, Row,
};
use crate::physical_plan::sort_rows::{
    delivered_rows_fit_the_schema, lemma_filter_runs_under_schema, runs_under_its_schema,
};
use crate::types::schema::FieldView;
use crate::types::value::ValueView;

verus! {

// ---------------------------------------------------------------------------
// Rows kept before they are joined

/// Pairs that go together and whose left row passes every condition of a list.
pub open spec fn left_passing(
    s: Seq<ExprView>,
    goes: spec_fn(Row, Row) -> bool,
) -> spec_fn(Row, Row) -> bool {
    |l: Row, r: Row| passes_all(s, l) && goes(l, r)
}

/// Pairs that go together and whose right row passes every condition of a list.
pub open spec fn right_passing(
    s: Seq<ExprView>,
    goes: spec_fn(Row, Row) -> bool,
) -> spec_fn(Row, Row) -> bool {
    |l: Row, r: Row| passes_all(s, r) && goes(l, r)
}

/// One more row is kept after the others, if it passes.
pub proof fn lemma_kept_all_push(s: Seq<ExprView>, rows: Seq<Row>)
    requires
        rows.len() > 0,
    ensures
        kept_all(s, rows) == if passes_all(s, rows.last()) {
            kept_all(s, rows.drop_last()).push(rows.last())
        } else {
            kept_all(s, rows.drop_last())
        },
{
    if s.len() == 0 {
        assert(rows.drop_last().push(rows.last()) =~= rows);
    } else {
        lemma_conjunction_passes(s, rows.last());
    }
}

/// A row that passes is among the kept ones.
proof fn lemma_kept_all_has(s: Seq<ExprView>, rows: Seq<Row>, i: int) -> (k: int)
    requires
        0 <= i < rows.len(),
        passes_all(s, rows[i]),
    ensures
        0 <= k < kept_all(s, rows).len(),
        kept_all(s, rows)[k] == rows[i],
    decreases rows.len(),
{
    let rest = rows.drop_last();
    lemma_kept_all_push(s, rows);
    if i == rows.len() - 1 {
        kept_all(s, rest).len() as int
    } else {
        assert(rest[i] == rows[i]);
        lemma_kept_all_has(s, rest, i)
    }
}

proof fn lemma_partners_kept(
    s: Seq<ExprView>,
    goes: spec_fn(Row, Row) -> bool,
    left: Seq<Row>,
    r: Row,
)
    ensures
        partners(goes, kept_all(s, left), r) == partners(left_passing(s, goes), left, r),
    decreases left.len(),
{
    if left.len() == 0 {
        assert(kept_all(s, left) =~= seq![]);
    } else {
        let rest = left.drop_last();
        lemma_partners_kept(s, goes, rest, r);
        lemma_kept_all_push(s, left);
        if passes_all(s, left.last()) {
            assert(kept_all(s, left).drop_last() =~= kept_all(s, rest));
        }
    }
}

pub proof fn lemma_left_kept(
    s: Seq<ExprView>,
    goes: spec_fn(Row, Row) -> bool,
    left: Seq<Row>,
    right: Seq<Row>,
)
    ensures
        joined(goes, kept_all(s, left), right) == joined(left_passing(s, goes), left, right),
    decreases right.len(),
{
    if right.len() > 0 {
        lemma_left_kept(s, goes, left, right.drop_last());
        lemma_partners_kept(s, goes, left, right.last());
    }
}

proof fn lemma_right_partners(
    s: Seq<ExprView>,
    goes: spec_fn(Row, Row) -> bool,
    left: Seq<Row>,
    r: Row,
)
    ensures
        partners(right_passing(s, goes), left, r) == if passes_all(s, r) {
            partners(goes, left, r)
        } else {
            seq![]
        },
    decreases left.len(),
{
    if left.len() > 0 {
        lemma_right_partners(s, goes, left.drop_last(), r);
    }
}

pub proof fn lemma_right_kept(
    s: Seq<ExprView>,
    goes: spec_fn(Row, Row) -> bool,
    left: Seq<Row>,
    right: Seq<Row>,
)
    ensures
        joined(goes, left, kept_all(s, right)) == joined(right_passing(s, goes), left, right),
    decreases right.len(),
{
    if right.len() == 0 {
        assert(kept_all(s, right) =~= seq![]);
    } else {
        let rest = right.drop_last();
        lemma_right_kept(s, goes, left, rest);
        lemma_right_partners(s, goes, left, right.last());
        lemma_kept_all_push(s, right);
        if passes_all(s, right.last()) {
            assert(kept_all(s, right).drop_last() =~= kept_all(s, rest));
        } else {
            assert(joined(right_passing(s, goes), left, rest) + Seq::<Row>::empty() =~= joined(
                right_passing(s, goes),
                left,
                rest,
            ));
        }
    }
}

// ---------------------------------------------------------------------------
// Equalities that become keys

/// Whether two values that meet as keys are the same exactly when they are
/// equal: not so of zeros of two signs, nor of a NaN and itself.
pub open spec fn meet_alike(x: ValueView, y: ValueView) -> bool {
    match (x, y) {
        (ValueView::Float64(a), ValueView::Float64(b)) => a.num_eq(b) == (a == b),
        _ => true,
    }
}

/// Whether that holds of the values of key pairs on all rows.
pub open spec fn keys_meet_alike(
    on: Seq<(ExprView, ExprView)>,
    left: Seq<Row>,
    right: Seq<Row>,
) -> bool {
    forall|i: int, j: int, k: int|
        0 <= i < left.len() && 0 <= j < right.len() && 0 <= k < on.len() ==> meet_alike(
            #[trigger] eval(on[k].0, left[i])->Ok_0,
            #[trigger] eval(on[k].1, right[j])->Ok_0,
        )
}

/// A joined row passes an equality exactly when it has that key.
proof fn lemma_key_passes(c: ExprView, l: Row, r: Row)
    requires
        equi_pair(c, l.len() as int) is Some,
        ({
            let pair = equi_pair(c, l.len() as int)->Some_0;
            &&& eval(pair.0, l) is Ok
            &&& eval(pair.1, r) is Ok
            &&& meet_alike(eval(pair.0, l)->Ok_0, eval(pair.1, r)->Ok_0)
        }),
    ensures
        ({
            let pair = equi_pair(c, l.len() as int)->Some_0;
            passes(c, l + r) <==> eval(pair.1, r)->Ok_0 != ValueView::Null && eval(pair.0, l)->Ok_0
                == eval(pair.1, r)->Ok_0
        }),
{
    reveal_with_fuel(eval, 2);
    let pair = equi_pair(c, l.len() as int)->Some_0;
    assert(l.len() <= (l + r).len());
}

/// Two rows have the same keys of a list with more keys behind it exactly when
/// they have the same keys of both.
proof fn lemma_more_keys(
    on: Seq<(ExprView, ExprView)>,
    more: Seq<(ExprView, ExprView)>,
    l: Row,
    r: Row,
)
    ensures
        keys_match(on + more)(l, r) <==> keys_match(on)(l, r) && keys_match(more)(l, r),
{
    let all = on + more;
    let n = on.len() as int;
    let x = values_on(left_keys(all), l);
    let y = values_on(right_keys(all), r);
    let x1 = values_on(left_keys(on), l);
    let y1 = values_on(right_keys(on), r);
    let x2 = values_on(left_keys(more), l);
    let y2 = values_on(right_keys(more), r);
    assert(x =~= x1 + x2);
    assert(y =~= y1 + y2);
    if keys_match(all)(l, r) {
        assert forall|c: int| 0 <= c < y1.len() implies #[trigger] y1[c] != ValueView::Null by {
            assert(y[c] == y1[c]);
        }
        assert forall|c: int| 0 <= c < y2.len() implies #[trigger] y2[c] != ValueView::Null by {
            assert(y[n + c] == y2[c]);
        }
        assert(x1 =~= x.take(n));
        assert(y1 =~= y.take(n));
        assert(x2 =~= x.skip(n));
        assert(y2 =~= y.skip(n));
    }
}

/// A joined row passes equalities exactly when it has the keys that they
/// become.
proof fn lemma_keys_pass(s: Seq<ExprView>, l: Row, r: Row)
    requires
        forall|i: int|
            0 <= i < s.len() ==> equi_pair(#[trigger] s[i], l.len() as int) is Some && {
                let pair = equi_pair(s[i], l.len() as int)->Some_0;
                &&& eval(pair.0, l) is Ok
                &&& eval(pair.1, r) is Ok
                &&& meet_alike(eval(pair.0, l)->Ok_0, eval(pair.1, r)->Ok_0)
            },
    ensures
        keys_match(keys_of(s, l.len() as int))(l, r) <==> passes_all(s, l + r),
{
    let on = keys_of(s, l.len() as int);
    let x = values_on(left_keys(on), l);
    let y = values_on(right_keys(on), r);
    assert forall|i: int| 0 <= i < s.len() implies (passes(#[trigger] s[i], l + r) <==> y[i]
        != ValueView::Null && x[i] == y[i]) by {
        lemma_key_passes(s[i], l, r);
    }
    if keys_match(on)(l, r) {
        assert forall|i: int| 0 <= i < s.len() implies passes(#[trigger] s[i], l + r) by {
            assert(y[i] != ValueView::Null);
        }
    }
    if passes_all(s, l + r) {
        assert forall|i: int| 0 <= i < y.len() implies #[trigger] y[i] != ValueView::Null && x[i]
            == y[i] by {
            assert(passes(s[i], l + r));
        }
        assert(x =~= y);
    }
}

/// A row passes a condition with conjuncts added behind it exactly when it
/// passes the condition and the conjuncts.
proof fn lemma_condition_passes(filter: Option<ExprView>, s: Seq<ExprView>, row: Row)
    ensures
        condition_holds(joined_condition(filter, s), row) <==> condition_holds(filter, row)
            && passes_all(s, row),
{
    if s.len() > 0 {
        match filter {
            Some(e) => {
                let all = seq![e] + s;
                lemma_conjunction_passes(all, row);
                if passes_all(all, row) {
                    assert(passes(all[0], row));
                    assert forall|i: int| 0 <= i < s.len() implies passes(#[trigger] s[i], row) by {
                        assert(all[i + 1] == s[i]);
                    }
                }
                if passes(e, row) && passes_all(s, row) {
                    assert forall|i: int| 0 <= i < all.len() implies passes(
                        #[trigger] all[i],
                        row,
                    ) by {
                        if i > 0 {
                            assert(all[i] == s[i - 1]);
                        }
                    }
                }
            },
            None => {
                lemma_conjunction_passes(s, row);
            },
        }
    }
}

// ---------------------------------------------------------------------------
// The law

/// The conjuncts of a filter over an inner join that become keys, as such.
pub open spec fn new_keys(left: PlanView, predicate: ExprView) -> Seq<(ExprView, ExprView)> {
    let s = conjuncts(predicate);
    let w = plan_schema(left).len() as int;
    keys_of(placed(s, w, JoinType::Inner, Place::Key, s.len()), w)
}

/// What a side of the join delivers when its conjuncts are below it.
pub proof fn lemma_filtered_side(p: PlanView, s: Seq<ExprView>)
    requires
        runs_tidily(p),
        runs_under_its_schema(p),
        delivered(p) matches Some(rows) ==> rows.len() <= usize::MAX,
    ensures
        runs_tidily(filtered(p, s)),
        runs_under_its_schema(filtered(p, s)),
        delivered(filtered(p, s)) matches Some(rows) ==> rows.len() <= usize::MAX,
        delivered(filtered(p, s)) is Some ==> delivered(p) is Some && delivered(filtered(p, s))
            == Some(kept_all(s, delivered(p)->Some_0)),
{
    lemma_filtered(p, s);
    if s.len() > 0 {
        lemma_filter_runs_under_schema(p, conjunction(s));
        if delivered(p) is Some {
            lemma_kept_count(conjunction(s), delivered(p)->Some_0);
        }
    }
}

/// Every conjunct has a place.
pub proof fn lemma_placed_count(s: Seq<ExprView>, w: int, join_type: JoinType, n: nat)
    requires
        n <= s.len(),
    ensures
        placed(s, w, join_type, Place::Left, n).len() + placed(
            s,
            w,
            join_type,
            Place::Right,
            n,
        ).len() + placed(s, w, join_type, Place::Key, n).len() + placed(
            s,
            w,
            join_type,
            Place::Stays,
            n,
        ).len() == n,
    decreases n,
{
    if n > 0 {
        lemma_placed_count(s, w, join_type, (n - 1) as nat);
    }
}

/// Two rows of an inner join that pass a filter over it are those that the
/// split filter lets through.
proof fn lemma_split_pairs(
    on: Seq<(ExprView, ExprView)>,
    filter: Option<ExprView>,
    predicate: ExprView,
    l: Row,
    r: Row,
)
    requires
        l.len() <= usize::MAX,
        ({
            let s = conjuncts(predicate);
            let w = l.len() as int;
            let a = placed(s, w, JoinType::Inner, Place::Left, s.len());
            let b = rebased(placed(s, w, JoinType::Inner, Place::Right, s.len()), w);
            let more = keys_of(placed(s, w, JoinType::Inner, Place::Key, s.len()), w);
            passes_all(a, l) && passes_all(b, r) ==> forall|k: int|
                0 <= k < more.len() ==> {
                    &&& eval((#[trigger] more[k]).0, l) is Ok
                    &&& eval(more[k].1, r) is Ok
                    &&& meet_alike(eval(more[k].0, l)->Ok_0, eval(more[k].1, r)->Ok_0)
                }
        }),
    ensures
        ({
            let s = conjuncts(predicate);
            let w = l.len() as int;
            let a = placed(s, w, JoinType::Inner, Place::Left, s.len());
            let b = rebased(placed(s, w, JoinType::Inner, Place::Right, s.len()), w);
            let to_keys = placed(s, w, JoinType::Inner, Place::Key, s.len());
            let stays = placed(s, w, JoinType::Inner, Place::Stays, s.len());
            go_together(on, filter)(l, r) && passes(predicate, l + r) <==> passes_all(b, r)
                && passes_all(a, l) && go_together(
                on + keys_of(to_keys, w),
                joined_condition(filter, stays),
            )(l, r)
        }),
{
    let s = conjuncts(predicate);
    let w = l.len() as int;
    let a = placed(s, w, JoinType::Inner, Place::Left, s.len());
    let b = rebased(placed(s, w, JoinType::Inner, Place::Right, s.len()), w);
    let to_keys = placed(s, w, JoinType::Inner, Place::Key, s.len());
    let stays = placed(s, w, JoinType::Inner, Place::Stays, s.len());
    let more = keys_of(to_keys, w);
    split_filters_pass_the_same_rows(predicate, JoinType::Inner, l, r);
    lemma_more_keys(on, more, l, r);
    lemma_condition_passes(filter, stays, l + r);
    if passes_all(a, l) && passes_all(b, r) {
        assert forall|i: int| 0 <= i < to_keys.len() implies equi_pair(#[trigger] to_keys[i], w)
            is Some && {
            let pair = equi_pair(to_keys[i], w)->Some_0;
            &&& eval(pair.0, l) is Ok
            &&& eval(pair.1, r) is Ok
            &&& meet_alike(eval(pair.0, l)->Ok_0, eval(pair.1, r)->Ok_0)
        } by {
            lemma_placed_at(s, w, JoinType::Inner, Place::Key, s.len(), i);
            assert(more[i] == equi_pair(to_keys[i], w)->Some_0);
        }
        lemma_keys_pass(to_keys, l, r);
    }
}

/// A filter moved into an inner join that has keys leaves the same rows in the
/// same order: what looks at one side moves below it, what equates the two
/// becomes a key, and the rest becomes part of the condition.
pub proof fn filters_moved_below_inner_joins_keep_rows(
    left: PlanView,
    right: PlanView,
    on: Seq<(ExprView, ExprView)>,
    filter: Option<ExprView>,
    schema: Seq<FieldView>,
    predicate: ExprView,
)
    requires
        on.len() > 0,
        tidy_throughout(
            PlanView::Join {
                left: Box::new(left),
                right: Box::new(right),
                on,
                filter,
                join_type: JoinType::Inner,
                schema,
            },
        ),
        runs_under_its_schema(left),
        runs_under_its_schema(right),
        plan_schema(left).len() <= usize::MAX,
        delivered(left) matches Some(rows) ==> rows.len() <= usize::MAX,
        delivered(right) matches Some(rows) ==> rows.len() <= usize::MAX,
        delivered(left) is Some && delivered(right) is Some ==> keys_meet_alike(
            new_keys(left, predicate),
            delivered(left)->Some_0,
            delivered(right)->Some_0,
        ),
    ensures
        ({
            let join = PlanView::Join {
                left: Box::new(left),
                right: Box::new(right),
                on,
                filter,
                join_type: JoinType::Inner,
                schema,
            };
            same_rows(
                PlanView::Filter { input: Box::new(join), predicate },
                through_join(join, predicate).node,
            )
        }),
{
    let join = PlanView::Join {
        left: Box::new(left),
        right: Box::new(right),
        on,
        filter,
        join_type: JoinType::Inner,
        schema,
    };
    let p = PlanView::Filter { input: Box::new(join), predicate };
    let q = through_join(join, predicate).node;
    let s = conjuncts(predicate);
    let w = plan_schema(left).len() as int;
    let a = placed(s, w, JoinType::Inner, Place::Left, s.len());
    let to_right = placed(s, w, JoinType::Inner, Place::Right, s.len());
    let b = rebased(to_right, w);
    let to_keys = placed(s, w, JoinType::Inner, Place::Key, s.len());
    let stays = placed(s, w, JoinType::Inner, Place::Stays, s.len());
    let more = keys_of(to_keys, w);
    assert(tidy_throughout(left));
    assert(tidy_throughout(right));
    delivered_rows_fit_the_schema(left);
    if delivered(p) is Some && delivered(q) is Some {
        filters_deliver_the_rows_that_pass(join, predicate);
        inner_joins_deliver_the_pairs_that_match(left, right, on, filter, schema);
        let x = delivered(left)->Some_0;
        let y = delivered(right)->Some_0;
        let before = go_together(on, filter);
        let narrower = |l: Row, r: Row| before(l, r) && passes(predicate, l + r);
        lemma_kept_joined(predicate, before, narrower, x, y);
        if nothing_moves(s, w, JoinType::Inner) {
            filters_deliver_the_rows_that_pass(join, conjunction(stays));
            let after = |l: Row, r: Row| before(l, r) && passes(conjunction(stays), l + r);
            lemma_kept_joined(conjunction(stays), before, after, x, y);
            assert forall|i: int, j: int|
                0 <= i < x.len() && 0 <= j < y.len() implies #[trigger] narrower(x[i], y[j])
                == after(x[i], y[j]) by {
                split_filters_pass_the_same_rows(predicate, JoinType::Inner, x[i], y[j]);
                lemma_conjuncts_nonempty(predicate);
                lemma_placed_count(s, w, JoinType::Inner, s.len());
                lemma_conjunction_passes(stays, x[i] + y[j]);
            }
            lemma_joined_same(narrower, after, x, y);
        } else {
            let low_left = filtered(left, a);
            let low_right = filtered(right, b);
            let keys = on + more;
            let cond = joined_condition(filter, stays);
            lemma_filtered_side(left, a);
            lemma_filtered_side(right, b);
            inner_joins_deliver_the_pairs_that_match(low_left, low_right, keys, cond, schema);
            let u = kept_all(a, x);
            let v = kept_all(b, y);
            let after = go_together(keys, cond);
            lemma_left_kept(a, after, x, v);
            lemma_right_kept(b, left_passing(a, after), x, y);
            let split = right_passing(b, left_passing(a, after));
            assert forall|i: int, j: int|
                0 <= i < x.len() && 0 <= j < y.len() implies #[trigger] narrower(x[i], y[j])
                == split(x[i], y[j]) by {
                if passes_all(a, x[i]) && passes_all(b, y[j]) {
                    let c = lemma_kept_all_has(a, x, i);
                    let d = lemma_kept_all_has(b, y, j);
                    assert forall|k: int| 0 <= k < more.len() implies {
                        &&& eval((#[trigger] more[k]).0, x[i]) is Ok
                        &&& eval(more[k].1, y[j]) is Ok
                        &&& meet_alike(eval(more[k].0, x[i])->Ok_0, eval(more[k].1, y[j])->Ok_0)
                    } by {
                        let n = on.len() as int;
                        assert(left_keys(keys)[n + k] == more[k].0);
                        assert(right_keys(keys)[n + k] == more[k].1);
                        assert(eval(left_keys(keys)[n + k], u[c]) is Ok);
                        assert(eval(right_keys(keys)[n + k], v[d]) is Ok);
                    }
                }
                lemma_split_pairs(on, filter, predicate, x[i], y[j]);
            }
            lemma_joined_same(narrower, split, x, y);
        }
    }
}

// ---------------------------------------------------------------------------
// Joins without keys

/// Whether both plans run without an error only if they deliver the same rows,
/// in whatever order.
pub open spec fn same_rows_in_some_order(p: PlanView, q: PlanView) -> bool {
    delivered(p) is Some && delivered(q) is Some ==> delivered(p)->Some_0.to_multiset()
        == delivered(q)->Some_0.to_multiset()
}

proof fn lemma_right_partners_filtered(
    f: ExprView,
    goes: spec_fn(Row, Row) -> bool,
    narrower: spec_fn(Row, Row) -> bool,
    l: Row,
    right: Seq<Row>,
)
    requires
        forall|x: Row, y: Row| #[trigger]
            narrower(x, y) == (goes(x, y) && passes(f, x + y)),
    ensures
        kept(f, right_partners(goes, l, right)) == right_partners(narrower, l, right),
    decreases right.len(),
{
    if right.len() > 0 {
        let rest = right.drop_last();
        let r = right.last();
        lemma_right_partners_filtered(f, goes, narrower, l, rest);
        assert(narrower(l, r) == (goes(l, r) && passes(f, l + r)));
        if goes(l, r) {
            let all = right_partners(goes, l, right);
            assert(all.drop_last() =~= right_partners(goes, l, rest));
            assert(all.last() == l + r);
        }
    }
}

proof fn lemma_by_left_filtered(
    f: ExprView,
    goes: spec_fn(Row, Row) -> bool,
    narrower: spec_fn(Row, Row) -> bool,
    left: Seq<Row>,
    right: Seq<Row>,
)
    requires
        forall|x: Row, y: Row| #[trigger]
            narrower(x, y) == (goes(x, y) && passes(f, x + y)),
    ensures
        kept(f, joined_by_left(goes, left, right)) == joined_by_left(narrower, left, right),
    decreases left.len(),
{
    if left.len() > 0 {
        let rest = left.drop_last();
        lemma_by_left_filtered(f, goes, narrower, rest, right);
        lemma_right_partners_filtered(f, goes, narrower, left.last(), right);
        lemma_kept_concat(
            f,
            joined_by_left(goes, rest, right),
            right_partners(goes, left.last(), right),
        );
    }
}

proof fn lemma_left_kept_by_left(
    s: Seq<ExprView>,
    goes: spec_fn(Row, Row) -> bool,
    left: Seq<Row>,
    right: Seq<Row>,
)
    ensures
        joined_by_left(goes, kept_all(s, left), right) == joined_by_left(
            left_passing(s, goes),
            left,
            right,
        ),
    decreases left.len(),
{
    if left.len() == 0 {
        assert(kept_all(s, left) =~= seq![]);
    } else {
        let rest = left.drop_last();
        lemma_left_kept_by_left(s, goes, rest, right);
        lemma_kept_all_push(s, left);
        lemma_left_partners(s, goes, left.last(), right);
        if passes_all(s, left.last()) {
            assert(kept_all(s, left).drop_last() =~= kept_all(s, rest));
        } else {
            let before = joined_by_left(left_passing(s, goes), rest, right);
            assert(before + Seq::<Row>::empty() =~= before);
        }
    }
}

proof fn lemma_left_partners(
    s: Seq<ExprView>,
    goes: spec_fn(Row, Row) -> bool,
    l: Row,
    right: Seq<Row>,
)
    ensures
        right_partners(left_passing(s, goes), l, right) == if passes_all(s, l) {
            right_partners(goes, l, right)
        } else {
            seq![]
        },
    decreases right.len(),
{
    if right.len() > 0 {
        lemma_left_partners(s, goes, l, right.drop_last());
    }
}

proof fn lemma_right_partners_kept(
    s: Seq<ExprView>,
    goes: spec_fn(Row, Row) -> bool,
    l: Row,
    right: Seq<Row>,
)
    ensures
        right_partners(goes, l, kept_all(s, right)) == right_partners(
            right_passing(s, goes),
            l,
            right,
        ),
    decreases right.len(),
{
    if right.len() == 0 {
        assert(kept_all(s, right) =~= seq![]);
    } else {
        let rest = right.drop_last();
        lemma_right_partners_kept(s, goes, l, rest);
        lemma_kept_all_push(s, right);
        if passes_all(s, right.last()) {
            assert(kept_all(s, right).drop_last() =~= kept_all(s, rest));
        }
    }
}

proof fn lemma_right_kept_by_left(
    s: Seq<ExprView>,
    goes: spec_fn(Row, Row) -> bool,
    left: Seq<Row>,
    right: Seq<Row>,
)
    ensures
        joined_by_left(goes, left, kept_all(s, right)) == joined_by_left(
            right_passing(s, goes),
            left,
            right,
        ),
    decreases left.len(),
{
    if left.len() > 0 {
        lemma_right_kept_by_left(s, goes, left.drop_last(), right);
        lemma_right_partners_kept(s, goes, left.last(), right);
    }
}

proof fn lemma_right_partners_same(
    a: spec_fn(Row, Row) -> bool,
    b: spec_fn(Row, Row) -> bool,
    l: Row,
    right: Seq<Row>,
)
    requires
        forall|j: int| 0 <= j < right.len() ==> a(l, #[trigger] right[j]) == b(l, right[j]),
    ensures
        right_partners(a, l, right) == right_partners(b, l, right),
    decreases right.len(),
{
    if right.len() > 0 {
        let rest = right.drop_last();
        assert forall|j: int| 0 <= j < rest.len() implies a(l, #[trigger] rest[j]) == b(
            l,
            rest[j],
        ) by {
            assert(rest[j] == right[j]);
        }
        lemma_right_partners_same(a, b, l, rest);
        assert(right.last() == right[right.len() - 1]);
    }
}

pub proof fn lemma_by_left_same(
    a: spec_fn(Row, Row) -> bool,
    b: spec_fn(Row, Row) -> bool,
    left: Seq<Row>,
    right: Seq<Row>,
)
    requires
        forall|i: int, j: int|
            0 <= i < left.len() && 0 <= j < right.len() ==> a(
                #[trigger] left[i],
                #[trigger] right[j],
            ) == b(left[i], right[j]),
    ensures
        joined_by_left(a, left, right) == joined_by_left(b, left, right),
    decreases left.len(),
{
    if left.len() > 0 {
        let rest = left.drop_last();
        assert forall|i: int, j: int| 0 <= i < rest.len() && 0 <= j < right.len() implies a(
            #[trigger] rest[i],
            #[trigger] right[j],
        ) == b(rest[i], right[j]) by {
            assert(rest[i] == left[i]);
        }
        lemma_by_left_same(a, b, rest, right);
        let l = left[left.len() - 1];
        assert forall|j: int| 0 <= j < right.len() implies a(l, #[trigger] right[j]) == b(
            l,
            right[j],
        ) by {}
        lemma_right_partners_same(a, b, l, right);
    }
}

/// A filter moved into an inner join without keys leaves the same rows. They
/// come in the same order too, unless a conjunct becomes a key: the join then
/// goes by the rows of its right side.
pub proof fn filters_moved_below_joins_without_keys_keep_rows(
    left: PlanView,
    right: PlanView,
    on: Seq<(ExprView, ExprView)>,
    filter: Option<ExprView>,
    schema: Seq<FieldView>,
    predicate: ExprView,
)
    requires
        on.len() == 0,
        tidy_throughout(
            PlanView::Join {
                left: Box::new(left),
                right: Box::new(right),
                on,
                filter,
                join_type: JoinType::Inner,
                schema,
            },
        ),
        runs_under_its_schema(left),
        runs_under_its_schema(right),
        plan_schema(left).len() <= usize::MAX,
        delivered(left) matches Some(rows) ==> rows.len() <= usize::MAX,
        delivered(right) matches Some(rows) ==> rows.len() <= usize::MAX,
        delivered(left) is Some && delivered(right) is Some ==> keys_meet_alike(
            new_keys(left, predicate),
            delivered(left)->Some_0,
            delivered(right)->Some_0,
        ),
    ensures
        ({
            let join = PlanView::Join {
                left: Box::new(left),
                right: Box::new(right),
                on,
                filter,
                join_type: JoinType::Inner,
                schema,
            };
            let p = PlanView::Filter { input: Box::new(join), predicate };
            let q = through_join(join, predicate).node;
            &&& same_rows_in_some_order(p, q)
            &&& new_keys(left, predicate).len() == 0 ==> same_rows(p, q)
        }),
{
    let join = PlanView::Join {
        left: Box::new(left),
        right: Box::new(right),
        on,
        filter,
        join_type: JoinType::Inner,
        schema,
    };
    let p = PlanView::Filter { input: Box::new(join), predicate };
    let q = through_join(join, predicate).node;
    let s = conjuncts(predicate);
    let w = plan_schema(left).len() as int;
    let a = placed(s, w, JoinType::Inner, Place::Left, s.len());
    let to_right = placed(s, w, JoinType::Inner, Place::Right, s.len());
    let b = rebased(to_right, w);
    let to_keys = placed(s, w, JoinType::Inner, Place::Key, s.len());
    let stays = placed(s, w, JoinType::Inner, Place::Stays, s.len());
    let more = keys_of(to_keys, w);
    assert(tidy_throughout(left));
    assert(tidy_throughout(right));
    delivered_rows_fit_the_schema(left);
    if delivered(p) is Some && delivered(q) is Some {
        filters_deliver_the_rows_that_pass(join, predicate);
        joins_without_keys_deliver_the_pairs_that_pass(left, right, on, filter, schema);
        let x = delivered(left)->Some_0;
        let y = delivered(right)->Some_0;
        let before = together_pass(filter->Some_0);
        let narrower = |l: Row, r: Row| before(l, r) && passes(predicate, l + r);
        lemma_by_left_filtered(predicate, before, narrower, x, y);
        if nothing_moves(s, w, JoinType::Inner) {
            filters_deliver_the_rows_that_pass(join, conjunction(stays));
            let after = |l: Row, r: Row| before(l, r) && passes(conjunction(stays), l + r);
            lemma_by_left_filtered(conjunction(stays), before, after, x, y);
            assert forall|i: int, j: int| 0 <= i < x.len() && 0 <= j < y.len() implies narrower(
                #[trigger] x[i],
                #[trigger] y[j],
            ) == after(x[i], y[j]) by {
                split_filters_pass_the_same_rows(predicate, JoinType::Inner, x[i], y[j]);
                lemma_conjuncts_nonempty(predicate);
                lemma_placed_count(s, w, JoinType::Inner, s.len());
                lemma_conjunction_passes(stays, x[i] + y[j]);
            }
            lemma_by_left_same(narrower, after, x, y);
        } else {
            let low_left = filtered(left, a);
            let low_right = filtered(right, b);
            let keys = on + more;
            let cond = joined_condition(filter, stays);
            lemma_filtered_side(left, a);
            lemma_filtered_side(right, b);
            let u = kept_all(a, x);
            let v = kept_all(b, y);
            let after = go_together(keys, cond);
            let split = right_passing(b, left_passing(a, after));
            if keys.len() > 0 {
                inner_joins_deliver_the_pairs_that_match(low_left, low_right, keys, cond, schema);
                lemma_left_kept(a, after, x, v);
                lemma_right_kept(b, left_passing(a, after), x, y);
            } else {
                joins_without_keys_deliver_the_pairs_that_pass(
                    low_left,
                    low_right,
                    keys,
                    cond,
                    schema,
                );
                let passing = together_pass(cond->Some_0);
                assert forall|i: int, j: int| 0 <= i < u.len() && 0 <= j < v.len() implies passing(
                    #[trigger] u[i],
                    #[trigger] v[j],
                ) == after(u[i], v[j]) by {
                    assert(values_on(left_keys(keys), u[i]) =~= values_on(right_keys(keys), v[j]));
                    assert(present_key(values_on(right_keys(keys), v[j])));
                }
                lemma_by_left_same(passing, after, u, v);
                lemma_left_kept_by_left(a, after, x, v);
                lemma_right_kept_by_left(b, left_passing(a, after), x, y);
            }
            assert forall|i: int, j: int| 0 <= i < x.len() && 0 <= j < y.len() implies narrower(
                #[trigger] x[i],
                #[trigger] y[j],
            ) == split(x[i], y[j]) by {
                if passes_all(a, x[i]) && passes_all(b, y[j]) {
                    let c = lemma_kept_all_has(a, x, i);
                    let d = lemma_kept_all_has(b, y, j);
                    assert forall|k: int| 0 <= k < more.len() implies {
                        &&& eval((#[trigger] more[k]).0, x[i]) is Ok
                        &&& eval(more[k].1, y[j]) is Ok
                        &&& meet_alike(eval(more[k].0, x[i])->Ok_0, eval(more[k].1, y[j])->Ok_0)
                    } by {
                        assert(left_keys(keys)[k] == more[k].0);
                        assert(right_keys(keys)[k] == more[k].1);
                        assert(eval(left_keys(keys)[k], u[c]) is Ok);
                        assert(eval(right_keys(keys)[k], v[d]) is Ok);
                    }
                }
                lemma_split_pairs(on, filter, predicate, x[i], y[j]);
                assert(values_on(left_keys(on), x[i]) =~= values_on(right_keys(on), y[j]));
                assert(present_key(values_on(right_keys(on), y[j])));
            }
            lemma_by_left_same(narrower, split, x, y);
            joining_by_either_side_gives_the_same_rows(split, x, y);
        }
    }
}

// ---------------------------------------------------------------------------
// Cross joins

/// Any two rows.
pub open spec fn any_two() -> spec_fn(Row, Row) -> bool {
    |l: Row, r: Row| true
}

/// Of the first `n` conjuncts, those that become keys and the others.
proof fn lemma_promoted_pass(s: Seq<ExprView>, l: Row, r: Row, n: nat)
    requires
        n <= s.len(),
        ({
            let keys = promoted(s, l.len() as int, n);
            forall|k: int|
                0 <= k < keys.len() ==> {
                    &&& eval((#[trigger] keys[k]).0, l) is Ok
                    &&& eval(keys[k].1, r) is Ok
                    &&& meet_alike(eval(keys[k].0, l)->Ok_0, eval(keys[k].1, r)->Ok_0)
                }
        }),
    ensures
        passes_all(s.take(n as int), l + r) <==> keys_match(promoted(s, l.len() as int, n))(l, r)
            && passes_all(leftover(s, l.len() as int, n), l + r),
    decreases n,
{
    let w = l.len() as int;
    let keys = promoted(s, w, n);
    if n == 0 {
        assert(values_on(left_keys(keys), l) =~= values_on(right_keys(keys), r));
        assert(present_key(values_on(right_keys(keys), r)));
    } else {
        let m = (n - 1) as nat;
        let c = s[m as int];
        let before = promoted(s, w, m);
        assert forall|k: int| 0 <= k < before.len() implies {
            &&& eval((#[trigger] before[k]).0, l) is Ok
            &&& eval(before[k].1, r) is Ok
            &&& meet_alike(eval(before[k].0, l)->Ok_0, eval(before[k].1, r)->Ok_0)
        } by {
            assert(before[k] == keys[k]);
        }
        lemma_promoted_pass(s, l, r, m);
        assert(s.take(n as int) =~= s.take(m as int).push(c));
        lemma_passes_push(s.take(m as int), c, l + r);
        lemma_passes_push(leftover(s, w, m), c, l + r);
        match equi_pair(c, w) {
            None => {},
            Some(pair) => {
                let one = seq![pair];
                assert(keys[before.len() as int] == pair);
                assert(keys =~= before + one);
                lemma_more_keys(before, one, l, r);
                lemma_key_passes(c, l, r);
                let x = values_on(left_keys(one), l);
                let y = values_on(right_keys(one), r);
                assert(x.len() == 1 && x[0] == eval(pair.0, l)->Ok_0);
                assert(y.len() == 1 && y[0] == eval(pair.1, r)->Ok_0);
                if passes(c, l + r) {
                    assert(x =~= y);
                    assert(present_key(y));
                }
                if keys_match(one)(l, r) {
                    assert(y[0] != ValueView::Null);
                }
            },
        }
    }
}

/// A filter over all pairs of rows that becomes the condition of a join: the
/// join delivers the pairs that pass the filter.
pub proof fn filtered_cross_joins_deliver_the_pairs_that_pass(
    left: PlanView,
    right: PlanView,
    on: Seq<(ExprView, ExprView)>,
    schema: Seq<FieldView>,
    predicate: ExprView,
)
    requires
        on.len() == 0,
        runs_tidily(left),
        runs_tidily(right),
        runs_under_its_schema(left),
        runs_under_its_schema(right),
        delivered(left) matches Some(rows) ==> rows.len() <= usize::MAX,
        delivered(right) matches Some(rows) ==> rows.len() <= usize::MAX,
        delivered(left) is Some && delivered(right) is Some ==> keys_meet_alike(
            promoted(
                conjuncts(predicate),
                plan_schema(left).len() as int,
                conjuncts(predicate).len(),
            ),
            delivered(left)->Some_0,
            delivered(right)->Some_0,
        ),
    ensures
        ({
            let join = PlanView::Join {
                left: Box::new(left),
                right: Box::new(right),
                on,
                filter: None,
                join_type: JoinType::Inner,
                schema,
            };
            let r = without_cross_join(PlanView::Filter { input: Box::new(join), predicate });
            r.changed && delivered(r.node) is Some ==> delivered(left) is Some && delivered(
                right,
            ) is Some && delivered(r.node) == Some(
                kept(
                    predicate,
                    joined(any_two(), delivered(left)->Some_0, delivered(right)->Some_0),
                ),
            )
        }),
{
    let join = PlanView::Join {
        left: Box::new(left),
        right: Box::new(right),
        on,
        filter: None,
        join_type: JoinType::Inner,
        schema,
    };
    let q = without_cross_join(PlanView::Filter { input: Box::new(join), predicate });
    if q.changed && delivered(q.node) is Some {
        delivered_rows_fit_the_schema(left);
        let s = conjuncts(predicate);
        let w = plan_schema(left).len() as int;
        let keys = promoted(s, w, s.len());
        let rest = leftover(s, w, s.len());
        let cond = conjunction_of(rest);
        inner_joins_deliver_the_pairs_that_match(left, right, keys, cond, schema);
        let x = delivered(left)->Some_0;
        let y = delivered(right)->Some_0;
        let after = go_together(keys, cond);
        let narrower = |l: Row, r: Row| any_two()(l, r) && passes(predicate, l + r);
        lemma_kept_joined(predicate, any_two(), narrower, x, y);
        assert forall|i: int, j: int| 0 <= i < x.len() && 0 <= j < y.len() implies
            #[trigger] narrower(x[i], y[j]) == after(x[i], y[j]) by {
            assert forall|k: int| 0 <= k < keys.len() implies {
                &&& eval((#[trigger] keys[k]).0, x[i]) is Ok
                &&& eval(keys[k].1, y[j]) is Ok
                &&& meet_alike(eval(keys[k].0, x[i])->Ok_0, eval(keys[k].1, y[j])->Ok_0)
            } by {
                assert(left_keys(keys)[k] == keys[k].0);
                assert(right_keys(keys)[k] == keys[k].1);
                assert(eval(left_keys(keys)[k], x[i]) is Ok);
                assert(eval(right_keys(keys)[k], y[j]) is Ok);
            }
            lemma_promoted_pass(s, x[i], y[j], s.len());
            assert(s.take(s.len() as int) =~= s);
            lemma_predicate_passes(predicate, x[i] + y[j]);
            if rest.len() > 0 {
                lemma_conjunction_passes(rest, x[i] + y[j]);
            }
        }
        lemma_joined_same(narrower, after, x, y);
    }
}

} // verus!
