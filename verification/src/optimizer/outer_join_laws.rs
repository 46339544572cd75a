//! What moving a filter into the kept side of an outer join keeps: the rows
//! that pass it, with a partner or without one.

use vstd::prelude::*;

use crate::expr::expr::ExprView;
use crate::logical_plan::plan::{plan_schema, JoinType, PlanView};
use crate::optimizer::join_laws::{
    left_passing, lemma_filtered_side, lemma_kept_all_push, lemma_left_kept, lemma_placed_count,
    lemma_right_kept, right_passing,
};
use crate::optimizer::laws::{
    kept_all, lemma_filtered, lemma_kept_count, lemma_kept_same, same_rows, tidy_throughout,
};
use crate::optimizer::rules::common::{conjunction, conjuncts, lemma_conjuncts_nonempty};
use crate::optimizer::rules::predicate_pushdown::{
    conjuncts_mean_the_same_below_a_join, filtered, keeps_left_rows, keys_of,
    lemma_conjunction_passes,
    lemma_placed_at, lemma_placed_pass, lemma_predicate_passes, nothing_moves,
    null_producing_sides_get_no_filter, passes, passes_all, place, placed, rebased, through_join,
    Place,
};
use crate::physical_plan::join::nested_rows::joins_without_keys_are_inner_joins;
use crate::physical_plan::join::outer_rows::{
    before_nulls, behind_nulls, has_left_partner, has_right_partner, join_rows, left_rows,
    lemma_join_delivers, nulls, right_rows, rows_that,
};
use crate::physical_plan::join::rows::{
    go_together, joined, lemma_joined_same, lemma_kept_joined,
};
use crate::physical_plan::planner::exec_of;
use crate::physical_plan::rows::{
    delivered, filters_deliver_the_rows_that_pass, items_of, kept, lemma_kept_concat, runs_tidily,
    Row,
};
use crate::physical_plan::sort_rows::{delivered_rows_fit_the_schema, runs_under_its_schema};
use crate::types::schema::FieldView;

verus! {

// ---------------------------------------------------------------------------
// Rows kept before or after they are joined

/// Rows put into wider ones.
spec fn widened(wide: spec_fn(Row) -> Row, rows: Seq<Row>) -> Seq<Row> {
    Seq::new(rows.len(), |i: int| wide(rows[i]))
}

/// Rows of a side that have no partner pass what moved to their side exactly
/// when, widened with nulls, they pass it above the join.
proof fn lemma_lone_kept(
    above: Seq<ExprView>,
    below: Seq<ExprView>,
    lone: spec_fn(Row) -> bool,
    wide: spec_fn(Row) -> Row,
    rows: Seq<Row>,
)
    requires
        forall|i: int|
            0 <= i < rows.len() ==> passes_all(below, #[trigger] rows[i]) == passes_all(
                above,
                wide(rows[i]),
            ),
    ensures
        widened(wide, rows_that(lone, kept_all(below, rows))) == kept_all(
            above,
            widened(wide, rows_that(lone, rows)),
        ),
    decreases rows.len(),
{
    let inner = rows_that(lone, kept_all(below, rows));
    let outer = widened(wide, rows_that(lone, rows));
    if rows.len() == 0 {
        assert(kept_all(below, rows) =~= seq![]);
        assert(outer =~= seq![]);
        assert(kept_all(above, outer) =~= seq![]);
        assert(widened(wide, inner) =~= seq![]);
    } else {
        let rest = rows.drop_last();
        let row = rows.last();
        assert(row == rows[rows.len() - 1]);
        assert forall|i: int| 0 <= i < rest.len() implies passes_all(below, #[trigger] rest[i])
            == passes_all(above, wide(rest[i])) by {
            assert(rest[i] == rows[i]);
        }
        lemma_lone_kept(above, below, lone, wide, rest);
        lemma_kept_all_push(below, rows);
        let fewer = kept_all(below, rest);
        if passes_all(below, row) {
            assert(kept_all(below, rows).drop_last() =~= fewer);
            if lone(row) {
                assert(widened(wide, rows_that(lone, fewer).push(row)) =~= widened(
                    wide,
                    rows_that(lone, fewer),
                ).push(wide(row)));
            }
        }
        if lone(row) {
            assert(outer =~= widened(wide, rows_that(lone, rest)).push(wide(row)));
            lemma_kept_all_push(above, outer);
            assert(outer.drop_last() =~= widened(wide, rows_that(lone, rest)));
        }
    }
}

proof fn lemma_kept_all_concat(s: Seq<ExprView>, a: Seq<Row>, b: Seq<Row>)
    ensures
        kept_all(s, a + b) == kept_all(s, a) + kept_all(s, b),
{
    if s.len() > 0 {
        lemma_kept_concat(conjunction(s), a, b);
    }
}

/// A condition that holds where all of two lists hold keeps what the lists
/// keep, one after the other.
proof fn lemma_kept_in_two(
    whole: ExprView,
    first: Seq<ExprView>,
    second: Seq<ExprView>,
    rows: Seq<Row>,
)
    requires
        forall|i: int|
            0 <= i < rows.len() ==> passes(whole, #[trigger] rows[i]) == (passes_all(
                first,
                rows[i],
            ) && passes_all(second, rows[i])),
    ensures
        kept(whole, rows) == kept_all(second, kept_all(first, rows)),
    decreases rows.len(),
{
    if rows.len() == 0 {
        assert(kept_all(first, rows) =~= seq![]);
        assert(kept_all(second, kept_all(first, rows)) =~= seq![]);
    } else {
        let rest = rows.drop_last();
        let row = rows.last();
        assert(row == rows[rows.len() - 1]);
        assert forall|i: int| 0 <= i < rest.len() implies passes(whole, #[trigger] rest[i]) == (
        passes_all(first, rest[i]) && passes_all(second, rest[i])) by {
            assert(rest[i] == rows[i]);
        }
        lemma_kept_in_two(whole, first, second, rest);
        lemma_kept_all_push(first, rows);
        if passes_all(first, row) {
            let some = kept_all(first, rows);
            assert(some.drop_last() =~= kept_all(first, rest));
            lemma_kept_all_push(second, some);
        }
    }
}

/// Keeping left rows below a left join is keeping its rows above it.
proof fn lemma_left_join_kept(
    s: Seq<ExprView>,
    goes: spec_fn(Row, Row) -> bool,
    left: Seq<Row>,
    right: Seq<Row>,
    left_width: nat,
    right_width: nat,
)
    requires
        forall|i: int, r: Row|
            0 <= i < left.len() ==> passes_all(s, left[i]) == passes_all(
                s,
                #[trigger] (left[i] + r),
            ),
    ensures
        join_rows(JoinType::Left, goes, kept_all(s, left), right, left_width, right_width)
            == kept_all(
            s,
            join_rows(JoinType::Left, goes, left, right, left_width, right_width),
        ),
{
    let fewer = kept_all(s, left);
    lemma_left_kept(s, goes, left, right);
    if s.len() > 0 {
        let e = conjunction(s);
        let narrower = |l: Row, r: Row| goes(l, r) && passes(e, l + r);
        lemma_kept_joined(e, goes, narrower, left, right);
        assert forall|i: int, j: int| 0 <= i < left.len() && 0 <= j < right.len() implies
            #[trigger] narrower(left[i], right[j]) == left_passing(s, goes)(left[i], right[j]) by {
            lemma_conjunction_passes(s, left[i] + right[j]);
        }
        lemma_joined_same(narrower, left_passing(s, goes), left, right);
    }
    assert(joined(goes, fewer, right) == kept_all(s, joined(goes, left, right)));
    let lone = |l: Row| has_right_partner(goes, l, right) == false;
    let wide = |l: Row| l + nulls(right_width);
    assert forall|i: int| 0 <= i < left.len() implies passes_all(s, #[trigger] left[i])
        == passes_all(s, wide(left[i])) by {
        assert(wide(left[i]) == left[i] + nulls(right_width));
    }
    lemma_lone_kept(s, s, lone, wide, left);
    assert(left_rows(goes, left, right, false) == rows_that(lone, left));
    assert(left_rows(goes, fewer, right, false) == rows_that(lone, fewer));
    assert(before_nulls(rows_that(lone, left), right_width) =~= widened(
        wide,
        rows_that(lone, left),
    ));
    assert(before_nulls(rows_that(lone, fewer), right_width) =~= widened(
        wide,
        rows_that(lone, fewer),
    ));
    lemma_kept_all_concat(
        s,
        joined(goes, left, right),
        before_nulls(left_rows(goes, left, right, false), right_width),
    );
}

/// Keeping left rows below a left semi or anti join is keeping its rows above
/// it.
proof fn lemma_left_rows_kept(
    s: Seq<ExprView>,
    goes: spec_fn(Row, Row) -> bool,
    left: Seq<Row>,
    right: Seq<Row>,
    matched: bool,
)
    ensures
        left_rows(goes, kept_all(s, left), right, matched) == kept_all(
            s,
            left_rows(goes, left, right, matched),
        ),
{
    let meets = |l: Row| has_right_partner(goes, l, right) == matched;
    let same = |l: Row| l;
    lemma_lone_kept(s, s, meets, same, left);
    assert(widened(same, rows_that(meets, left)) =~= rows_that(meets, left));
    let fewer = rows_that(meets, kept_all(s, left));
    assert(widened(same, fewer) =~= fewer);
    assert(left_rows(goes, left, right, matched) == rows_that(meets, left));
    assert(left_rows(goes, kept_all(s, left), right, matched) == fewer);
}

/// Keeping right rows below a right join is keeping its rows above it.
proof fn lemma_right_join_kept(
    above: Seq<ExprView>,
    below: Seq<ExprView>,
    goes: spec_fn(Row, Row) -> bool,
    left: Seq<Row>,
    right: Seq<Row>,
    left_width: nat,
    right_width: nat,
)
    requires
        above.len() == below.len(),
        forall|i: int| 0 <= i < left.len() ==> (#[trigger] left[i]).len() == left_width,
        forall|l: Row, j: int|
            0 <= j < right.len() && l.len() == left_width ==> passes_all(below, right[j])
                == passes_all(above, #[trigger] (l + right[j])),
    ensures
        join_rows(JoinType::Right, goes, left, kept_all(below, right), left_width, right_width)
            == kept_all(
            above,
            join_rows(JoinType::Right, goes, left, right, left_width, right_width),
        ),
{
    let fewer = kept_all(below, right);
    lemma_right_kept(below, goes, left, right);
    if above.len() > 0 {
        let e = conjunction(above);
        let narrower = |l: Row, r: Row| goes(l, r) && passes(e, l + r);
        lemma_kept_joined(e, goes, narrower, left, right);
        assert forall|i: int, j: int| 0 <= i < left.len() && 0 <= j < right.len() implies
            #[trigger] narrower(left[i], right[j]) == right_passing(below, goes)(
            left[i],
            right[j],
        ) by {
            lemma_conjunction_passes(above, left[i] + right[j]);
        }
        lemma_joined_same(narrower, right_passing(below, goes), left, right);
    }
    assert(joined(goes, left, fewer) == kept_all(above, joined(goes, left, right)));
    let lone = |r: Row| has_left_partner(goes, left, r) == false;
    let wide = |r: Row| nulls(left_width) + r;
    assert forall|j: int| 0 <= j < right.len() implies passes_all(below, #[trigger] right[j])
        == passes_all(above, wide(right[j])) by {
        assert(nulls(left_width).len() == left_width);
        assert(wide(right[j]) == nulls(left_width) + right[j]);
    }
    lemma_lone_kept(above, below, lone, wide, right);
    assert(right_rows(goes, left, right, false) == rows_that(lone, right));
    assert(right_rows(goes, left, fewer, false) == rows_that(lone, fewer));
    assert(behind_nulls(left_width, rows_that(lone, right)) =~= widened(
        wide,
        rows_that(lone, right),
    ));
    assert(behind_nulls(left_width, rows_that(lone, fewer)) =~= widened(
        wide,
        rows_that(lone, fewer),
    ));
    lemma_kept_all_concat(
        above,
        joined(goes, left, right),
        behind_nulls(left_width, right_rows(goes, left, right, false)),
    );
}

// ---------------------------------------------------------------------------
// What moves

/// No conjunct is placed where none belongs.
proof fn lemma_none_placed(s: Seq<ExprView>, w: int, join_type: JoinType, at: Place, n: nat)
    requires
        n <= s.len(),
        forall|i: int| 0 <= i < s.len() ==> place(#[trigger] s[i], w, join_type) != at,
    ensures
        placed(s, w, join_type, at, n) == Seq::<ExprView>::empty(),
    decreases n,
{
    if n > 0 {
        lemma_none_placed(s, w, join_type, at, (n - 1) as nat);
        assert(place(s[n - 1], w, join_type) != at);
    }
}

/// Nothing becomes a key of a join that is not an inner one, and nothing moves
/// to a side that the join may fill with nulls or leave out.
proof fn lemma_moves(s: Seq<ExprView>, w: int, join_type: JoinType)
    requires
        join_type != JoinType::Inner,
    ensures
        placed(s, w, join_type, Place::Key, s.len()) == Seq::<ExprView>::empty(),
        !keeps_left_rows(join_type) ==> placed(s, w, join_type, Place::Left, s.len()) == Seq::<
            ExprView,
        >::empty(),
        join_type != JoinType::Right ==> placed(s, w, join_type, Place::Right, s.len()) == Seq::<
            ExprView,
        >::empty(),
{
    assert forall|i: int| 0 <= i < s.len() implies place(#[trigger] s[i], w, join_type)
        != Place::Key by {}
    lemma_none_placed(s, w, join_type, Place::Key, s.len());
    if !keeps_left_rows(join_type) {
        assert forall|i: int| 0 <= i < s.len() implies place(#[trigger] s[i], w, join_type)
            != Place::Left by {
            null_producing_sides_get_no_filter(s[i], w);
        }
        lemma_none_placed(s, w, join_type, Place::Left, s.len());
    }
    if join_type != JoinType::Right {
        assert forall|i: int| 0 <= i < s.len() implies place(#[trigger] s[i], w, join_type)
            != Place::Right by {
            null_producing_sides_get_no_filter(s[i], w);
        }
        lemma_none_placed(s, w, join_type, Place::Right, s.len());
    }
}

/// A row passes a filter over a join that is not an inner one exactly when it
/// passes what moves and what stays.
proof fn lemma_split_in_two(predicate: ExprView, w: int, join_type: JoinType, row: Row)
    requires
        join_type != JoinType::Inner,
    ensures
        ({
            let s = conjuncts(predicate);
            passes(predicate, row) <==> {
                &&& passes_all(placed(s, w, join_type, Place::Left, s.len()), row)
                &&& passes_all(placed(s, w, join_type, Place::Right, s.len()), row)
                &&& passes_all(placed(s, w, join_type, Place::Stays, s.len()), row)
            }
        }),
{
    let s = conjuncts(predicate);
    lemma_predicate_passes(predicate, row);
    lemma_moves(s, w, join_type);
    assert(s.take(s.len() as int) =~= s);
    lemma_placed_pass(s, w, join_type, row, s.len());
}

/// A conjunct that moves below the left side of a left join means the same
/// there.
proof fn lemma_left_conjuncts(s: Seq<ExprView>, l: Row, r: Row)
    requires
        l.len() <= usize::MAX,
    ensures
        ({
            let a = placed(s, l.len() as int, JoinType::Left, Place::Left, s.len());
            passes_all(a, l) == passes_all(a, l + r)
        }),
{
    let a = placed(s, l.len() as int, JoinType::Left, Place::Left, s.len());
    assert forall|i: int| 0 <= i < a.len() implies passes(#[trigger] a[i], l) == passes(
        a[i],
        l + r,
    ) by {
        lemma_placed_at(s, l.len() as int, JoinType::Left, Place::Left, s.len(), i);
        conjuncts_mean_the_same_below_a_join(a[i], JoinType::Left, l, r);
    }
}

/// A conjunct that moves below the right side of a right join means the same
/// there.
proof fn lemma_right_conjuncts(s: Seq<ExprView>, l: Row, r: Row)
    requires
        l.len() <= usize::MAX,
    ensures
        ({
            let w = l.len() as int;
            let b = placed(s, w, JoinType::Right, Place::Right, s.len());
            passes_all(rebased(b, w), r) == passes_all(b, l + r)
        }),
{
    let w = l.len() as int;
    let b = placed(s, w, JoinType::Right, Place::Right, s.len());
    let low = rebased(b, w);
    assert forall|i: int| 0 <= i < b.len() implies passes(#[trigger] low[i], r) == passes(
        b[i],
        l + r,
    ) by {
        lemma_placed_at(s, w, JoinType::Right, Place::Right, s.len(), i);
        conjuncts_mean_the_same_below_a_join(b[i], JoinType::Right, l, r);
    }
    if passes_all(low, r) {
        assert forall|i: int| 0 <= i < b.len() implies passes(#[trigger] b[i], l + r) by {
            assert(passes(low[i], r));
        }
    }
    if passes_all(b, l + r) {
        assert forall|i: int| 0 <= i < low.len() implies passes(#[trigger] low[i], r) by {
            assert(passes(b[i], l + r));
        }
    }
}

// ---------------------------------------------------------------------------
// The law

/// A filter starts only where its input does.
proof fn lemma_started(input: PlanView, predicate: ExprView)
    requires
        items_of(PlanView::Filter { input: Box::new(input), predicate }) is Some,
    ensures
        items_of(input) is Some,
{
    reveal(items_of);
    assert(exec_of(PlanView::Filter { input: Box::new(input), predicate }) is Ok);
    assert(exec_of(input) is Ok);
}

/// A join below which a filter's conjuncts were moved delivers what the join
/// delivered, as far as it passes them.
proof fn lemma_join_of_fewer(
    left: PlanView,
    right: PlanView,
    on: Seq<(ExprView, ExprView)>,
    filter: Option<ExprView>,
    join_type: JoinType,
    schema: Seq<FieldView>,
    s: Seq<ExprView>,
)
    requires
        on.len() > 0,
        keeps_left_rows(join_type) || join_type == JoinType::Right,
        join_type != JoinType::Inner,
        tidy_throughout(
            PlanView::Join {
                left: Box::new(left),
                right: Box::new(right),
                on,
                filter,
                join_type,
                schema,
            },
        ),
        runs_under_its_schema(left),
        runs_under_its_schema(right),
        plan_schema(left).len() <= usize::MAX,
        delivered(left) matches Some(rows) ==> rows.len() <= usize::MAX,
        delivered(right) matches Some(rows) ==> rows.len() <= usize::MAX,
        ({
            let w = plan_schema(left).len() as int;
            let a = placed(s, w, join_type, Place::Left, s.len());
            let b = placed(s, w, join_type, Place::Right, s.len());
            items_of(
                PlanView::Join {
                    left: Box::new(filtered(left, a)),
                    right: Box::new(filtered(right, rebased(b, w))),
                    on,
                    filter,
                    join_type,
                    schema,
                },
            ) is Some
        }),
        delivered(
            PlanView::Join {
                left: Box::new(left),
                right: Box::new(right),
                on,
                filter,
                join_type,
                schema,
            },
        ) is Some,
    ensures
        ({
            let w = plan_schema(left).len() as int;
            let a = placed(s, w, join_type, Place::Left, s.len());
            let b = placed(s, w, join_type, Place::Right, s.len());
            let join = PlanView::Join {
                left: Box::new(left),
                right: Box::new(right),
                on,
                filter,
                join_type,
                schema,
            };
            let lower = PlanView::Join {
                left: Box::new(filtered(left, a)),
                right: Box::new(filtered(right, rebased(b, w))),
                on,
                filter,
                join_type,
                schema,
            };
            &&& delivered(lower) == Some(kept_all(a + b, delivered(join)->Some_0))
            &&& runs_tidily(lower)
        }),
{
    let w = plan_schema(left).len() as int;
    let a = placed(s, w, join_type, Place::Left, s.len());
    let b = placed(s, w, join_type, Place::Right, s.len());
    let low = rebased(b, w);
    let join = PlanView::Join {
        left: Box::new(left),
        right: Box::new(right),
        on,
        filter,
        join_type,
        schema,
    };
    let fewer_left = filtered(left, a);
    let fewer_right = filtered(right, low);
    assert(tidy_throughout(left));
    assert(tidy_throughout(right));
    assert(runs_tidily(join));
    lemma_moves(s, w, join_type);
    lemma_join_delivers(left, right, on, filter, join_type, schema);
    lemma_filtered_side(left, a);
    lemma_filtered_side(right, low);
    lemma_join_delivers(fewer_left, fewer_right, on, filter, join_type, schema);
    delivered_rows_fit_the_schema(left);
    let x = delivered(left)->Some_0;
    let y = delivered(right)->Some_0;
    let goes = go_together(on, filter);
    let lw = plan_schema(left).len();
    let rw = plan_schema(right).len();
    let rows = join_rows(join_type, goes, x, y, lw, rw);
    if join_type == JoinType::LeftSemi || join_type == JoinType::LeftAnti {
        assert(a + b =~= a);
        assert(low =~= seq![]);
        lemma_left_rows_kept(a, goes, x, y, join_type == JoinType::LeftSemi);
    } else if join_type == JoinType::Left {
        assert(a + b =~= a);
        assert(low =~= seq![]);
        assert forall|i: int, r: Row| 0 <= i < x.len() implies passes_all(a, x[i]) == passes_all(
            a,
            #[trigger] (x[i] + r),
        ) by {
            lemma_left_conjuncts(s, x[i], r);
        }
        lemma_left_join_kept(a, goes, x, y, lw, rw);
    } else {
        assert(a + b =~= b);
        assert forall|l: Row, j: int| 0 <= j < y.len() && l.len() == lw implies passes_all(
            low,
            y[j],
        ) == passes_all(b, #[trigger] (l + y[j])) by {
            lemma_right_conjuncts(s, l, y[j]);
        }
        lemma_right_join_kept(b, low, goes, x, y, lw, rw);
    }
    if (a + b).len() > 0 {
        lemma_kept_count(conjunction(a + b), rows);
    }
}

/// A filter over a join that is not an inner one leaves the same rows in the
/// same order after what it says of the kept side alone has moved below that
/// side: below the left side of a left, left semi or left anti join and the
/// right side of a right join. Over any other it stays.
pub proof fn filters_moved_below_outer_joins_keep_rows(
    left: PlanView,
    right: PlanView,
    on: Seq<(ExprView, ExprView)>,
    filter: Option<ExprView>,
    join_type: JoinType,
    schema: Seq<FieldView>,
    predicate: ExprView,
)
    requires
        join_type != JoinType::Inner,
        tidy_throughout(
            PlanView::Join {
                left: Box::new(left),
                right: Box::new(right),
                on,
                filter,
                join_type,
                schema,
            },
        ),
        runs_under_its_schema(left),
        runs_under_its_schema(right),
        plan_schema(left).len() <= usize::MAX,
        delivered(left) matches Some(rows) ==> rows.len() <= usize::MAX,
        delivered(right) matches Some(rows) ==> rows.len() <= usize::MAX,
    ensures
        ({
            let join = PlanView::Join {
                left: Box::new(left),
                right: Box::new(right),
                on,
                filter,
                join_type,
                schema,
            };
            same_rows(
                PlanView::Filter { input: Box::new(join), predicate },
                through_join(join, predicate).node,
            )
        }),
{
    let join = PlanView::Join {
        left: Box::new(left),
        right: Box::new(right),
        on,
        filter,
        join_type,
        schema,
    };
    let p = PlanView::Filter { input: Box::new(join), predicate };
    let q = through_join(join, predicate).node;
    let s = conjuncts(predicate);
    let w = plan_schema(left).len() as int;
    let a = placed(s, w, join_type, Place::Left, s.len());
    let b = placed(s, w, join_type, Place::Right, s.len());
    let stays = placed(s, w, join_type, Place::Stays, s.len());
    assert(runs_tidily(join));
    lemma_moves(s, w, join_type);
    if join_type != JoinType::Full && delivered(p) is Some && delivered(q) is Some {
        lemma_started(join, predicate);
        filters_deliver_the_rows_that_pass(join, predicate);
        let rows = delivered(join)->Some_0;
        if nothing_moves(s, w, join_type) {
            filters_deliver_the_rows_that_pass(join, conjunction(stays));
            lemma_conjuncts_nonempty(predicate);
            lemma_placed_count(s, w, join_type, s.len());
            assert forall|i: int| 0 <= i < rows.len() implies passes(predicate, #[trigger] rows[i])
                == passes(conjunction(stays), rows[i]) by {
                lemma_split_in_two(predicate, w, join_type, rows[i]);
                lemma_conjunction_passes(stays, rows[i]);
            }
            lemma_kept_same(predicate, conjunction(stays), rows);
        } else {
            let lower = PlanView::Join {
                left: Box::new(filtered(left, a)),
                right: Box::new(filtered(right, rebased(b, w))),
                on,
                filter,
                join_type,
                schema,
            };
            assert(on + keys_of(placed(s, w, join_type, Place::Key, s.len()), w) =~= on);
            assert(q == filtered(lower, stays));
            if stays.len() > 0 {
                lemma_started(lower, conjunction(stays));
            }
            if on.len() == 0 {
                joins_without_keys_are_inner_joins(join);
            }
            lemma_join_of_fewer(left, right, on, filter, join_type, schema, s);
            lemma_filtered(lower, stays);
            assert forall|i: int| 0 <= i < rows.len() implies passes(predicate, #[trigger] rows[i])
                == (passes_all(a + b, rows[i]) && passes_all(stays, rows[i])) by {
                lemma_split_in_two(predicate, w, join_type, rows[i]);
                if join_type == JoinType::Right {
                    assert(a + b =~= b);
                } else {
                    assert(a + b =~= a);
                }
            }
            lemma_kept_in_two(predicate, a + b, stays, rows);
        }
    }
}

} // verus!
