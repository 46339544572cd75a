//! What rewriting expressions keeps of sorts and joins: their keys and
//! conditions mean on the rows what they meant before.

use vstd::prelude::*;

use crate::expr::expr::{eval, row_conforms, ExprView};
use crate::logical_plan::plan::{plan_schema, PlanView, SortExprView};
use crate::optimizer::join_laws::lemma_by_left_same;
use crate::optimizer::laws::{
    agrees, lemma_map_list, lemma_simple_agrees, plain_on, same_rows, tidy_throughout,
};
use crate::optimizer::rules::common::{
    map_list, map_one, map_pairs, mapped, sort_key_exprs, whole, with_key_exprs, ExprMap,
};
use crate::optimizer::rules::constant_folding::{fold_step, folding_keeps_values};
use crate::optimizer::rules::simplify_expressions::{
    no_double_meets_itself, simple, simplify_step, simplifying_keeps_values,
};
use crate::physical_plan::join::nested_rows::{
    joins_without_keys_are_inner_joins, joins_without_keys_deliver_the_pairs_that_pass,
    together_pass,
};
use crate::physical_plan::join::outer_rows::{
    joins_with_keys_deliver_matches_and_kept_rows, lemma_join_rows_same,
};
use crate::physical_plan::join::rows::{
    condition_defined, condition_holds, go_together, keys_match, left_keys, right_keys,
};
use crate::physical_plan::rows::{all_defined, delivered, runs_tidily, values_on, Row};
use crate::physical_plan::sort_rows::{
    exprs_of, key_of, put, runs_under_its_schema, sorted_rows, sorts_before,
    sorts_deliver_the_rows_in_order,
};

verus! {

/// Whether two expressions come to the same on every row.
spec fn mean_the_same(x: ExprView, e: ExprView) -> bool {
    forall|row: Row| #[trigger] eval(x, row) == eval(e, row)
}

proof fn lemma_folded_means_the_same(e: ExprView)
    requires
        whole(fold_step())(e) is Ok,
    ensures
        mean_the_same(whole(fold_step())(e)->Ok_0, e),
{
    assert forall|row: Row| #[trigger] eval(whole(fold_step())(e)->Ok_0, row) == eval(e, row) by {
        folding_keeps_values(e, row);
    }
}

// ---------------------------------------------------------------------------
// Sorts

/// Whether sort keys have the same values on a row.
spec fn same_keys(others: Seq<SortExprView>, keys: Seq<SortExprView>, r: Row) -> bool {
    &&& others.len() == keys.len()
    &&& forall|c: int|
        0 <= c < keys.len() ==> (#[trigger] others[c]).options == keys[c].options && key_of(
            others[c],
            r,
        ) == key_of(keys[c], r)
}

/// Whether that holds of every row.
spec fn all_same_keys(
    others: Seq<SortExprView>,
    keys: Seq<SortExprView>,
    rows: Seq<Row>,
) -> bool {
    forall|i: int| 0 <= i < rows.len() ==> same_keys(others, keys, #[trigger] rows[i])
}

proof fn lemma_same_order(
    others: Seq<SortExprView>,
    keys: Seq<SortExprView>,
    a: Row,
    b: Row,
    c: int,
)
    requires
        same_keys(others, keys, a),
        same_keys(others, keys, b),
        0 <= c,
    ensures
        sorts_before(others, a, b, c) == sorts_before(keys, a, b, c),
    decreases keys.len() - c,
{
    if c < keys.len() {
        assert(others[c].options == keys[c].options);
        lemma_same_order(others, keys, a, b, c + 1);
    }
}

proof fn lemma_same_put(
    others: Seq<SortExprView>,
    keys: Seq<SortExprView>,
    sorted: Seq<Row>,
    r: Row,
)
    requires
        all_same_keys(others, keys, sorted),
        same_keys(others, keys, r),
    ensures
        put(others, sorted, r) == put(keys, sorted, r),
        all_same_keys(others, keys, put(keys, sorted, r)),
    decreases sorted.len(),
{
    if sorted.len() > 0 {
        let front = sorted.drop_last();
        let last = sorted[sorted.len() - 1];
        assert forall|i: int| 0 <= i < front.len() implies same_keys(
            others,
            keys,
            #[trigger] front[i],
        ) by {
            assert(front[i] == sorted[i]);
        }
        lemma_same_order(others, keys, r, last, 0);
        lemma_same_put(others, keys, front, r);
        let out = put(keys, sorted, r);
        let inner = put(keys, front, r);
        assert forall|i: int| 0 <= i < out.len() implies same_keys(
            others,
            keys,
            #[trigger] out[i],
        ) by {
            if sorts_before(keys, r, last, 0) {
                if i < inner.len() {
                    assert(out[i] == inner[i]);
                }
            } else if i < sorted.len() {
                assert(out[i] == sorted[i]);
            }
        }
    }
}

proof fn lemma_same_sorted(others: Seq<SortExprView>, keys: Seq<SortExprView>, rows: Seq<Row>)
    requires
        all_same_keys(others, keys, rows),
    ensures
        sorted_rows(others, rows) == sorted_rows(keys, rows),
        all_same_keys(others, keys, sorted_rows(keys, rows)),
    decreases rows.len(),
{
    if rows.len() > 0 {
        let rest = rows.drop_last();
        assert forall|i: int| 0 <= i < rest.len() implies same_keys(
            others,
            keys,
            #[trigger] rest[i],
        ) by {
            assert(rest[i] == rows[i]);
        }
        lemma_same_sorted(others, keys, rest);
        assert(rows.last() == rows[rows.len() - 1]);
        lemma_same_put(others, keys, sorted_rows(keys, rest), rows.last());
    }
}

/// Sorts by keys that agree on the rows deliver the same rows in the same
/// order.
proof fn lemma_rewritten_sort(
    input: PlanView,
    keys: Seq<SortExprView>,
    exprs: Seq<ExprView>,
)
    requires
        tidy_throughout(input),
        runs_under_its_schema(input),
        keys.len() == exprs.len(),
        delivered(input) matches Some(rows) ==> rows.len() <= usize::MAX && forall|c: int|
            0 <= c < keys.len() ==> agrees(#[trigger] exprs[c], keys[c].expr, rows),
    ensures
        same_rows(
            PlanView::Sort { input: Box::new(input), exprs: keys },
            PlanView::Sort { input: Box::new(input), exprs: with_key_exprs(keys, exprs) },
        ),
{
    let others = with_key_exprs(keys, exprs);
    let p = PlanView::Sort { input: Box::new(input), exprs: keys };
    let q = PlanView::Sort { input: Box::new(input), exprs: others };
    assert(runs_tidily(input));
    if delivered(p) is Some && delivered(q) is Some {
        sorts_deliver_the_rows_in_order(input, keys);
        sorts_deliver_the_rows_in_order(input, others);
        let rows = delivered(input)->Some_0;
        assert forall|i: int| 0 <= i < rows.len() implies same_keys(
            others,
            keys,
            #[trigger] rows[i],
        ) by {
            assert forall|c: int| 0 <= c < keys.len() implies (#[trigger] others[c]).options
                == keys[c].options && key_of(others[c], rows[i]) == key_of(keys[c], rows[i]) by {
                assert(agrees(exprs[c], keys[c].expr, rows));
                assert(eval(exprs_of(keys)[c], rows[i]) is Ok);
            }
        }
        lemma_same_sorted(others, keys, rows);
    }
}

/// A sort with the constants of its keys folded leaves the same rows, in the
/// same order.
pub proof fn folded_constants_keep_the_rows_of_sorts(p: PlanView)
    requires
        tidy_throughout(p),
        p is Sort,
        runs_under_its_schema(*p->Sort_input),
        delivered(*p->Sort_input) matches Some(rows) ==> rows.len() <= usize::MAX,
    ensures
        mapped(p, whole(fold_step())) matches Ok(r) ==> same_rows(p, r.node),
{
    let g = whole(fold_step());
    if mapped(p, g) is Ok {
        match p {
            PlanView::Sort { input, exprs } => {
                let plain = sort_key_exprs(exprs);
                lemma_map_list(plain, g, exprs.len());
                let folded = map_list(plain, g, exprs.len())->Ok_0.node;
                assert(tidy_throughout(*input));
                if let Some(rows) = delivered(*input) {
                    assert forall|c: int| 0 <= c < exprs.len() implies agrees(
                        #[trigger] folded[c],
                        exprs[c].expr,
                        rows,
                    ) by {
                        assert(g(plain[c]) is Ok);
                        lemma_folded_means_the_same(exprs[c].expr);
                    }
                }
                lemma_rewritten_sort(*input, exprs, folded);
            },
            _ => {},
        }
    }
}

/// A sort with simplified keys leaves the same rows, in the same order, where
/// its input's rows are such as its keys declare them.
pub proof fn simplified_expressions_keep_the_rows_of_sorts(p: PlanView)
    requires
        tidy_throughout(p),
        p is Sort,
        runs_under_its_schema(*p->Sort_input),
        delivered(*p->Sort_input) matches Some(rows) ==> rows.len() <= usize::MAX && forall|c: int|
            0 <= c < p->Sort_exprs.len() ==> plain_on((#[trigger] p->Sort_exprs[c]).expr, rows),
    ensures
        mapped(p, whole(simplify_step())) matches Ok(r) ==> same_rows(p, r.node),
{
    let g = whole(simplify_step());
    if mapped(p, g) is Ok {
        match p {
            PlanView::Sort { input, exprs } => {
                let plain = sort_key_exprs(exprs);
                lemma_map_list(plain, g, exprs.len());
                let others = map_list(plain, g, exprs.len())->Ok_0.node;
                assert(tidy_throughout(*input));
                if let Some(rows) = delivered(*input) {
                    assert forall|c: int| 0 <= c < exprs.len() implies agrees(
                        #[trigger] others[c],
                        exprs[c].expr,
                        rows,
                    ) by {
                        assert(g(plain[c]) is Ok);
                        assert(others[c] == simple(exprs[c].expr));
                        assert(plain_on(exprs[c].expr, rows));
                        lemma_simple_agrees(exprs[c].expr, rows);
                    }
                }
                lemma_rewritten_sort(*input, exprs, others);
            },
            _ => {},
        }
    }
}

// ---------------------------------------------------------------------------
// Joins

proof fn lemma_map_pairs(on: Seq<(ExprView, ExprView)>, g: ExprMap, n: nat)
    requires
        n <= on.len(),
        map_pairs(on, g, n) is Ok,
    ensures
        map_pairs(on, g, n)->Ok_0.node.len() == n,
        forall|i: int|
            0 <= i < n ==> g((#[trigger] on[i]).0) is Ok && g(on[i].1) is Ok && map_pairs(
                on,
                g,
                n,
            )->Ok_0.node[i] == (g(on[i].0)->Ok_0, g(on[i].1)->Ok_0),
    decreases n,
{
    if n > 0 {
        let m = (n - 1) as nat;
        lemma_map_pairs(on, g, m);
        let before = map_pairs(on, g, m)->Ok_0.node;
        let all = map_pairs(on, g, n)->Ok_0.node;
        assert(all == before.push((g(on[m as int].0)->Ok_0, g(on[m as int].1)->Ok_0)));
        assert forall|i: int| 0 <= i < n implies g((#[trigger] on[i]).0) is Ok && g(on[i].1) is Ok
            && all[i] == (g(on[i].0)->Ok_0, g(on[i].1)->Ok_0) by {
            if i < m {
                assert(all[i] == before[i]);
            }
        }
    }
}

/// Whether key pairs match alike.
spec fn pairs_mean_the_same(
    others: Seq<(ExprView, ExprView)>,
    on: Seq<(ExprView, ExprView)>,
) -> bool {
    &&& others.len() == on.len()
    &&& forall|i: int|
        0 <= i < on.len() ==> mean_the_same((#[trigger] others[i]).0, on[i].0) && mean_the_same(
            others[i].1,
            on[i].1,
        )
}

/// Whether conditions hold alike.
spec fn conditions_mean_the_same(other: Option<ExprView>, filter: Option<ExprView>) -> bool {
    match (other, filter) {
        (None, None) => true,
        (Some(x), Some(f)) => mean_the_same(x, f),
        _ => false,
    }
}

proof fn lemma_same_go_together(
    others: Seq<(ExprView, ExprView)>,
    on: Seq<(ExprView, ExprView)>,
    other: Option<ExprView>,
    filter: Option<ExprView>,
)
    requires
        pairs_mean_the_same(others, on),
        conditions_mean_the_same(other, filter),
    ensures
        go_together(others, other) == go_together(on, filter),
{
    assert forall|l: Row, r: Row| #[trigger]
        go_together(others, other)(l, r) == go_together(on, filter)(l, r) by {
        assert forall|i: int| 0 <= i < on.len() implies values_on(left_keys(others), l)[i]
            == values_on(left_keys(on), l)[i] && values_on(right_keys(others), r)[i] == values_on(
            right_keys(on),
            r,
        )[i] by {
            assert(mean_the_same(others[i].0, on[i].0));
            assert(mean_the_same(others[i].1, on[i].1));
            assert(eval(others[i].0, l) == eval(on[i].0, l));
            assert(eval(others[i].1, r) == eval(on[i].1, r));
        }
        assert(values_on(left_keys(others), l) =~= values_on(left_keys(on), l));
        assert(values_on(right_keys(others), r) =~= values_on(right_keys(on), r));
        assert(keys_match(others)(l, r) == keys_match(on)(l, r));
        assert(condition_holds(other, l + r) == condition_holds(filter, l + r));
    }
    assert(go_together(others, other) =~= go_together(on, filter));
}

/// A join with the constants of its keys and its condition folded leaves the
/// same rows, in the same order.
pub proof fn folded_constants_keep_the_rows_of_joins(p: PlanView)
    requires
        tidy_throughout(p),
        p is Join,
        runs_under_its_schema(*p->Join_left),
        runs_under_its_schema(*p->Join_right),
        delivered(*p->Join_left) matches Some(rows) ==> rows.len() <= usize::MAX,
        delivered(*p->Join_right) matches Some(rows) ==> rows.len() <= usize::MAX,
    ensures
        mapped(p, whole(fold_step())) matches Ok(r) ==> same_rows(p, r.node),
{
    let g = whole(fold_step());
    if mapped(p, g) is Ok {
        match p {
            PlanView::Join { left, right, on, filter, join_type, schema } => {
                lemma_map_pairs(on, g, on.len());
                let others = map_pairs(on, g, on.len())->Ok_0.node;
                let other = match filter {
                    None => None,
                    Some(f) => Some(map_one(f, g)->Ok_0.node),
                };
                let q = PlanView::Join {
                    left,
                    right,
                    on: others,
                    filter: other,
                    join_type,
                    schema,
                };
                assert(mapped(p, g)->Ok_0.node == q);
                assert(tidy_throughout(*left) && tidy_throughout(*right));
                if delivered(p) is Some && delivered(q) is Some {
                    assert forall|i: int| 0 <= i < on.len() implies mean_the_same(
                        (#[trigger] others[i]).0,
                        on[i].0,
                    ) && mean_the_same(others[i].1, on[i].1) by {
                        assert(g(on[i].0) is Ok);
                        lemma_folded_means_the_same(on[i].0);
                        lemma_folded_means_the_same(on[i].1);
                    }
                    if let Some(f) = filter {
                        lemma_folded_means_the_same(f);
                    }
                    lemma_same_go_together(others, on, other, filter);
                    if on.len() > 0 {
                        joins_with_keys_deliver_matches_and_kept_rows(
                            *left,
                            *right,
                            on,
                            filter,
                            join_type,
                            schema,
                        );
                        joins_with_keys_deliver_matches_and_kept_rows(
                            *left,
                            *right,
                            others,
                            other,
                            join_type,
                            schema,
                        );
                    } else {
                        joins_without_keys_are_inner_joins(p);
                        joins_without_keys_deliver_the_pairs_that_pass(
                            *left,
                            *right,
                            on,
                            filter,
                            schema,
                        );
                        joins_without_keys_deliver_the_pairs_that_pass(
                            *left,
                            *right,
                            others,
                            other,
                            schema,
                        );
                        lemma_same_together_pass(other->Some_0, filter->Some_0);
                    }
                }
            },
            _ => {},
        }
    }
}

proof fn lemma_same_together_pass(x: ExprView, f: ExprView)
    requires
        mean_the_same(x, f),
    ensures
        together_pass(x) == together_pass(f),
{
    assert forall|l: Row, r: Row| #[trigger] together_pass(x)(l, r) == together_pass(f)(l, r) by {
        assert(eval(x, l + r) == eval(f, l + r));
    }
    assert(together_pass(x) =~= together_pass(f));
}

/// Whether the expressions of a join declare the rows of its sides as they are.
pub open spec fn plain_join(
    on: Seq<(ExprView, ExprView)>,
    filter: Option<ExprView>,
    left: Seq<Row>,
    right: Seq<Row>,
) -> bool {
    &&& forall|k: int|
        0 <= k < on.len() ==> plain_on((#[trigger] on[k]).0, left) && plain_on(on[k].1, right)
    &&& filter matches Some(f) ==> forall|i: int, j: int|
        0 <= i < left.len() && 0 <= j < right.len() ==> row_conforms(
            f,
            #[trigger] left[i] + #[trigger] right[j],
        ) && no_double_meets_itself(f, left[i] + right[j])
}

/// A join of any type with simplified keys and a simplified condition leaves
/// the same rows, in the same order, where the rows of its sides are such as
/// its expressions declare them.
pub proof fn simplified_expressions_keep_the_rows_of_joins(p: PlanView)
    requires
        tidy_throughout(p),
        p is Join,
        runs_under_its_schema(*p->Join_left),
        runs_under_its_schema(*p->Join_right),
        delivered(*p->Join_left) matches Some(rows) ==> rows.len() <= usize::MAX,
        delivered(*p->Join_right) matches Some(rows) ==> rows.len() <= usize::MAX,
        delivered(*p->Join_left) is Some && delivered(*p->Join_right) is Some ==> plain_join(
            p->Join_on,
            p->Join_filter,
            delivered(*p->Join_left)->Some_0,
            delivered(*p->Join_right)->Some_0,
        ),
    ensures
        mapped(p, whole(simplify_step())) matches Ok(r) ==> same_rows(p, r.node),
{
    let g = whole(simplify_step());
    if mapped(p, g) is Ok {
        match p {
            PlanView::Join { left, right, on, filter, join_type, schema } => {
                lemma_map_pairs(on, g, on.len());
                let others = map_pairs(on, g, on.len())->Ok_0.node;
                let other = match filter {
                    None => None,
                    Some(f) => Some(map_one(f, g)->Ok_0.node),
                };
                let q = PlanView::Join {
                    left,
                    right,
                    on: others,
                    filter: other,
                    join_type,
                    schema,
                };
                assert(mapped(p, g)->Ok_0.node == q);
                assert(tidy_throughout(*left) && tidy_throughout(*right));
                if delivered(p) is Some && delivered(q) is Some {
                    if on.len() > 0 {
                        joins_with_keys_deliver_matches_and_kept_rows(
                            *left,
                            *right,
                            on,
                            filter,
                            join_type,
                            schema,
                        );
                        joins_with_keys_deliver_matches_and_kept_rows(
                            *left,
                            *right,
                            others,
                            other,
                            join_type,
                            schema,
                        );
                        let x = delivered(*left)->Some_0;
                        let y = delivered(*right)->Some_0;
                        assert forall|i: int, j: int|
                            0 <= i < x.len() && 0 <= j < y.len() implies #[trigger] go_together(
                            on,
                            filter,
                        )(x[i], y[j]) == go_together(others, other)(x[i], y[j]) by {
                            lemma_simple_pair(on, others, filter, other, x, y, i, j);
                        }
                        lemma_join_rows_same(
                            join_type,
                            go_together(on, filter),
                            go_together(others, other),
                            x,
                            y,
                            plan_schema(*left).len(),
                            plan_schema(*right).len(),
                        );
                    } else {
                        joins_without_keys_are_inner_joins(p);
                        joins_without_keys_deliver_the_pairs_that_pass(
                            *left,
                            *right,
                            on,
                            filter,
                            schema,
                        );
                        joins_without_keys_deliver_the_pairs_that_pass(
                            *left,
                            *right,
                            others,
                            other,
                            schema,
                        );
                        let x = delivered(*left)->Some_0;
                        let y = delivered(*right)->Some_0;
                        let f = filter->Some_0;
                        assert forall|i: int, j: int|
                            0 <= i < x.len() && 0 <= j < y.len() implies together_pass(f)(
                            #[trigger] x[i],
                            #[trigger] y[j],
                        ) == together_pass(simple(f))(x[i], y[j]) by {
                            assert(eval(f, x[i] + y[j]) is Ok);
                            simplifying_keeps_values(f, x[i] + y[j]);
                        }
                        lemma_by_left_same(together_pass(f), together_pass(simple(f)), x, y);
                    }
                }
            },
            _ => {},
        }
    }
}

/// Two rows go together by simplified keys and a simplified condition exactly
/// where they did before.
proof fn lemma_simple_pair(
    on: Seq<(ExprView, ExprView)>,
    others: Seq<(ExprView, ExprView)>,
    filter: Option<ExprView>,
    other: Option<ExprView>,
    left: Seq<Row>,
    right: Seq<Row>,
    i: int,
    j: int,
)
    requires
        0 <= i < left.len(),
        0 <= j < right.len(),
        others.len() == on.len(),
        forall|k: int|
            0 <= k < on.len() ==> #[trigger] others[k] == (simple(on[k].0), simple(on[k].1)),
        other == (match filter {
            None => None,
            Some(f) => Some(simple(f)),
        }),
        plain_join(on, filter, left, right),
        all_defined(left_keys(on), left),
        all_defined(right_keys(on), right),
        condition_defined(on, filter, left, right),
    ensures
        go_together(on, filter)(left[i], right[j]) == go_together(others, other)(
            left[i],
            right[j],
        ),
{
    let l = left[i];
    let r = right[j];
    assert forall|k: int| 0 <= k < on.len() implies values_on(left_keys(others), l)[k]
        == values_on(left_keys(on), l)[k] && values_on(right_keys(others), r)[k] == values_on(
        right_keys(on),
        r,
    )[k] by {
        assert(others[k] == (simple(on[k].0), simple(on[k].1)));
        assert(plain_on(on[k].0, left) && plain_on(on[k].1, right));
        lemma_simple_agrees(on[k].0, left);
        lemma_simple_agrees(on[k].1, right);
        assert(eval(left_keys(on)[k], left[i]) is Ok);
        assert(eval(right_keys(on)[k], right[j]) is Ok);
    }
    assert(values_on(left_keys(others), l) =~= values_on(left_keys(on), l));
    assert(values_on(right_keys(others), r) =~= values_on(right_keys(on), r));
    assert(keys_match(others)(l, r) == keys_match(on)(l, r));
    if let Some(f) = filter {
        if keys_match(on)(l, r) {
            assert(eval(f, l + r) is Ok);
            assert(row_conforms(f, left[i] + right[j]));
            simplifying_keeps_values(f, l + r);
        }
    }
}

} // verus!
