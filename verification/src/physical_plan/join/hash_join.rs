//! The hash join. Both sides are read whole: the build side is indexed by its
//! keys, and the probe side looked up in it row by row.
//!
//! To the operator `JoinType` speaks of roles, not of table positions: `Left`,
//! `LeftSemi` and `LeftAnti` are about the probe side, `Right`, `RightSemi` and
//! `RightAnti` about the build side. In a plan the types name the inputs, and
//! the planner turns the one into the other. A null key never matches, in any
//! join type.

use std::sync::Arc;
use vstd::prelude::*;

use crate::array::{share, ArrayRef, ArrayView};
use crate::batch::{array_views, batch_of, columns_fit, BatchView, ColumnarBatch};
use crate::compute::indices_below;
use crate::error::{BasaltError, ErrorKind};
use crate::logical_plan::plan::JoinType;
use crate::physical_expr::expr::{PhysicalExprRef, PhysicalExprView};
use crate::physical_plan::aggregate::group_keys::{
    column_rows, encode_row, encode_rows, keys_identify_rows, lemma_encode_rows_prefix, row_fits,
    row_of, GroupKeyEncoder,
};
use crate::physical_plan::aggregate::hash_table::{encodable, lemma_rows_fit};
use crate::physical_plan::aggregate::key_index::KeyIndex;
use crate::physical_plan::aggregate::{optional_expr, single_batch};
use crate::physical_plan::filter::lemma_taken_fit;
use crate::physical_plan::plan::{
    eval_all, eval_rows, evaluate_all, evaluate_rows, exec_children, exec_schema, expr_list,
    materialize, plan_views, push_taken, rebuilt, run, stream_view, take_columns, BatchStream,
    ExecView, ExecutionPlan, ExecutionPlanRef,
};
use crate::types::data_type::DataType;
use crate::types::schema::{concat_schemas, FieldView, SchemaRef};
use crate::types::value::{Value, ValueView};

verus! {

/// Whether a key has no null.
pub open spec fn present_key(row: Seq<ValueView>) -> bool {
    forall|c: int| 0 <= c < row.len() ==> #[trigger] row[c] != ValueView::Null
}

/// Which of the first `n` rows have a given key, in order.
pub open spec fn matching_rows(keys: Seq<ArrayView>, row: Seq<ValueView>, n: nat) -> Seq<usize>
    decreases n,
{
    if n == 0 {
        seq![]
    } else {
        let before = matching_rows(keys, row, (n - 1) as nat);
        let this = row_of(keys, n - 1);
        if present_key(this) && this == row {
            before.push((n - 1) as usize)
        } else {
            before
        }
    }
}

/// Build rows paired with one probe row.
pub open spec fn pairs_with(rows: Seq<usize>, probe: int) -> Seq<(usize, usize)> {
    Seq::new(rows.len(), |i: int| (rows[i], probe as usize))
}

/// The pairs of rows with equal keys: by probe row, then by build row.
pub open spec fn match_pairs(
    build_keys: Seq<ArrayView>,
    probe_keys: Seq<ArrayView>,
    build_rows: nat,
    n: nat,
) -> Seq<(usize, usize)>
    decreases n,
{
    if n == 0 {
        seq![]
    } else {
        let before = match_pairs(build_keys, probe_keys, build_rows, (n - 1) as nat);
        let row = row_of(probe_keys, n - 1);
        if present_key(row) {
            before + pairs_with(matching_rows(build_keys, row, build_rows), n - 1)
        } else {
            before
        }
    }
}

/// The build rows of pairs.
pub open spec fn build_side(pairs: Seq<(usize, usize)>) -> Seq<Option<usize>> {
    Seq::new(pairs.len(), |i: int| Some(pairs[i].0))
}

/// The probe rows of pairs.
pub open spec fn probe_side(pairs: Seq<(usize, usize)>) -> Seq<Option<usize>> {
    Seq::new(pairs.len(), |i: int| Some(pairs[i].1))
}

/// The columns of both sides, gathered.
pub open spec fn joined_columns(
    b: BatchView,
    p: BatchView,
    build_rows: Seq<Option<usize>>,
    probe_rows: Seq<Option<usize>>,
) -> Seq<ArrayView> {
    take_columns(b.columns, build_rows) + take_columns(p.columns, probe_rows)
}

/// The first `n` pairs whose mask is true.
pub open spec fn keep_pairs(pairs: Seq<(usize, usize)>, mask: Seq<ValueView>, n: nat) -> Seq<
    (usize, usize),
>
    decreases n,
{
    if n == 0 {
        seq![]
    } else {
        let before = keep_pairs(pairs, mask, (n - 1) as nat);
        if mask[n - 1] == ValueView::Boolean(true) {
            before.push(pairs[n - 1])
        } else {
            before
        }
    }
}

/// The pairs that a residual predicate, over the columns of both sides, holds
/// for.
pub open spec fn residual_pairs(
    b: BatchView,
    p: BatchView,
    pairs: Seq<(usize, usize)>,
    filter: Option<PhysicalExprView>,
) -> Result<Seq<(usize, usize)>, ErrorKind> {
    match filter {
        None => Ok(pairs),
        Some(f) => if pairs.len() == 0 {
            Ok(pairs)
        } else {
            let columns = joined_columns(b, p, build_side(pairs), probe_side(pairs));
            match eval_rows(f, batch_of(b.schema + p.schema, columns)) {
                Err(k) => Err(k),
                Ok(mask) => if mask.data_type != DataType::Boolean {
                    Err(ErrorKind::Type)
                } else {
                    Ok(keep_pairs(pairs, mask.values, pairs.len()))
                },
            }
        },
    }
}

/// Which build rows occur in a pair.
pub open spec fn build_hits(pairs: Seq<(usize, usize)>, n: nat) -> Seq<bool> {
    Seq::new(n, |i: int| exists|k: int| 0 <= k < pairs.len() && (#[trigger] pairs[k]).0 == i)
}

/// Which probe rows occur in a pair.
pub open spec fn probe_hits(pairs: Seq<(usize, usize)>, n: nat) -> Seq<bool> {
    Seq::new(n, |i: int| exists|k: int| 0 <= k < pairs.len() && (#[trigger] pairs[k]).1 == i)
}

/// The first `n` rows whose flag is `want`.
pub open spec fn rows_where(flags: Seq<bool>, want: bool, n: nat) -> Seq<Option<usize>>
    decreases n,
{
    if n == 0 {
        seq![]
    } else {
        let before = rows_where(flags, want, (n - 1) as nat);
        if flags[n - 1] == want {
            before.push(Some((n - 1) as usize))
        } else {
            before
        }
    }
}

/// As many absent rows.
pub open spec fn absent(n: nat) -> Seq<Option<usize>> {
    Seq::new(n, |i: int| None)
}

/// The rows that a join puts out, on either side: the pairs, then the probe
/// rows without a match, then the build rows without a match, as the join type
/// asks for them.
pub open spec fn outer_rows(
    pairs: Seq<(usize, usize)>,
    join_type: JoinType,
    build_rows: nat,
    probe_rows: nat,
) -> (Seq<Option<usize>>, Seq<Option<usize>>) {
    let lone_probe = rows_where(probe_hits(pairs, probe_rows), false, probe_rows);
    let lone_build = rows_where(build_hits(pairs, build_rows), false, build_rows);
    match join_type {
        JoinType::Left => (
            build_side(pairs) + absent(lone_probe.len()),
            probe_side(pairs) + lone_probe,
        ),
        JoinType::Right => (
            build_side(pairs) + lone_build,
            probe_side(pairs) + absent(lone_build.len()),
        ),
        JoinType::Full => (
            build_side(pairs) + absent(lone_probe.len()) + lone_build,
            probe_side(pairs) + lone_probe + absent(lone_build.len()),
        ),
        _ => (build_side(pairs), probe_side(pairs)),
    }
}

/// The columns a join puts out. The semi and anti joins keep one side only.
pub open spec fn output_columns(
    b: BatchView,
    p: BatchView,
    pairs: Seq<(usize, usize)>,
    join_type: JoinType,
) -> Seq<ArrayView> {
    let bh = build_hits(pairs, b.num_rows);
    let ph = probe_hits(pairs, p.num_rows);
    match join_type {
        JoinType::LeftSemi => take_columns(p.columns, rows_where(ph, true, p.num_rows)),
        JoinType::LeftAnti => take_columns(p.columns, rows_where(ph, false, p.num_rows)),
        JoinType::RightSemi => take_columns(b.columns, rows_where(bh, true, b.num_rows)),
        JoinType::RightAnti => take_columns(b.columns, rows_where(bh, false, b.num_rows)),
        _ => {
            let rows = outer_rows(pairs, join_type, b.num_rows, p.num_rows);
            joined_columns(b, p, rows.0, rows.1)
        },
    }
}

/// The types of columns.
pub open spec fn column_types(columns: Seq<ArrayView>) -> Seq<DataType> {
    Seq::new(columns.len(), |c: int| columns[c].data_type)
}

/// The build keys.
pub open spec fn left_exprs(on: Seq<(PhysicalExprView, PhysicalExprView)>) -> Seq<PhysicalExprView> {
    Seq::new(on.len(), |i: int| on[i].0)
}

/// The probe keys.
pub open spec fn right_exprs(on: Seq<(PhysicalExprView, PhysicalExprView)>) -> Seq<
    PhysicalExprView,
> {
    Seq::new(on.len(), |i: int| on[i].1)
}

/// The pairs of equal keys; an internal error when the keys cannot be encoded
/// alike, or when there are rows but no keys.
pub open spec fn key_pairs(
    build_keys: Seq<ArrayView>,
    probe_keys: Seq<ArrayView>,
    build_rows: nat,
    probe_rows: nat,
) -> Result<Seq<(usize, usize)>, ErrorKind> {
    let types = column_types(build_keys);
    if !encodable(types, build_keys) || !encodable(types, probe_keys) {
        Err(ErrorKind::Internal)
    } else if types.len() == 0 && (build_rows > 0 || probe_rows > 0) {
        Err(ErrorKind::Internal)
    } else {
        Ok(match_pairs(build_keys, probe_keys, build_rows, probe_rows))
    }
}

/// What a hash join produces from its two sides.
pub open spec fn run_hash_join(
    b: BatchView,
    p: BatchView,
    on: Seq<(PhysicalExprView, PhysicalExprView)>,
    filter: Option<PhysicalExprView>,
    join_type: JoinType,
    schema: Seq<FieldView>,
) -> Result<Seq<Result<BatchView, ErrorKind>>, ErrorKind> {
    match eval_all(left_exprs(on), b, on.len()) {
        Err(k) => Err(k),
        Ok(build_keys) => match eval_all(right_exprs(on), p, on.len()) {
            Err(k) => Err(k),
            Ok(probe_keys) => match key_pairs(build_keys, probe_keys, b.num_rows, p.num_rows) {
                Err(k) => Err(k),
                Ok(candidates) => match residual_pairs(b, p, candidates, filter) {
                    Err(k) => Err(k),
                    Ok(pairs) => single_batch(schema, output_columns(b, p, pairs, join_type)),
                },
            },
        },
    }
}

// ---------------------------------------------------------------------------
// Laws

proof fn lemma_matching_rows(keys: Seq<ArrayView>, row: Seq<ValueView>, n: nat, i: usize)
    requires
        n <= usize::MAX,
    ensures
        matching_rows(keys, row, n).contains(i) <==> i < n && present_key(row) && row_of(
            keys,
            i as int,
        ) == row,
    decreases n,
{
    if n > 0 {
        lemma_matching_rows(keys, row, (n - 1) as nat, i);
        let before = matching_rows(keys, row, (n - 1) as nat);
        let all = matching_rows(keys, row, n);
        if all.len() > before.len() {
            assert(all[before.len() as int] == (n - 1) as usize);
            if before.contains(i) {
                let k = choose|k: int| 0 <= k < before.len() && before[k] == i;
                assert(all[k] == i);
            }
            if all.contains(i) && i != (n - 1) as usize {
                let k = choose|k: int| 0 <= k < all.len() && all[k] == i;
                assert(before[k] == i);
            }
        }
    }
}

/// Two rows are paired exactly when their keys are equal and hold no null.
pub proof fn pairs_are_equal_keys(
    build_keys: Seq<ArrayView>,
    probe_keys: Seq<ArrayView>,
    build_rows: nat,
    n: nat,
    b: usize,
    p: usize,
)
    requires
        build_rows <= usize::MAX,
        n <= usize::MAX,
    ensures
        match_pairs(build_keys, probe_keys, build_rows, n).contains((b, p)) <==> {
            &&& b < build_rows
            &&& p < n
            &&& present_key(row_of(probe_keys, p as int))
            &&& row_of(build_keys, b as int) == row_of(probe_keys, p as int)
        },
    decreases n,
{
    if n > 0 {
        pairs_are_equal_keys(build_keys, probe_keys, build_rows, (n - 1) as nat, b, p);
        let before = match_pairs(build_keys, probe_keys, build_rows, (n - 1) as nat);
        let all = match_pairs(build_keys, probe_keys, build_rows, n);
        let row = row_of(probe_keys, n - 1);
        lemma_matching_rows(build_keys, row, build_rows, b);
        if present_key(row) {
            let rows = matching_rows(build_keys, row, build_rows);
            let tail = pairs_with(rows, n - 1);
            if before.contains((b, p)) {
                let k = choose|k: int| 0 <= k < before.len() && before[k] == (b, p);
                assert(all[k] == (b, p));
            }
            if rows.contains(b) && p == (n - 1) as usize {
                let k = choose|k: int| 0 <= k < rows.len() && rows[k] == b;
                assert(tail[k] == (b, p));
                assert(all[before.len() + k] == (b, p));
            }
            if all.contains((b, p)) {
                let k = choose|k: int| 0 <= k < all.len() && all[k] == (b, p);
                if k < before.len() {
                    assert(before[k] == (b, p));
                } else {
                    assert(tail[k - before.len()] == (b, p));
                    assert(rows[k - before.len()] == b);
                    assert(p == n - 1);
                }
            }
        }
    }
}

proof fn lemma_rows_where(flags: Seq<bool>, want: bool, n: nat, i: usize)
    requires
        n <= flags.len(),
        n <= usize::MAX,
    ensures
        rows_where(flags, want, n).contains(Some(i)) <==> i < n && flags[i as int] == want,
        forall|k: int|
            0 <= k < rows_where(flags, want, n).len() ==> {
                &&& (#[trigger] rows_where(flags, want, n)[k]) is Some
                &&& rows_where(flags, want, n)[k]->0 < n
            },
    decreases n,
{
    if n > 0 {
        lemma_rows_where(flags, want, (n - 1) as nat, i);
        let before = rows_where(flags, want, (n - 1) as nat);
        let all = rows_where(flags, want, n);
        if all.len() > before.len() {
            assert(all[before.len() as int] == Some((n - 1) as usize));
            if before.contains(Some(i)) {
                let k = choose|k: int| 0 <= k < before.len() && before[k] == Some(i);
                assert(all[k] == Some(i));
            }
            if all.contains(Some(i)) && i != (n - 1) as usize {
                let k = choose|k: int| 0 <= k < all.len() && all[k] == Some(i);
                assert(before[k] == Some(i));
            }
            assert forall|k: int| 0 <= k < all.len() implies (#[trigger] all[k]) is Some
                && all[k]->0 < n by {
                if k < before.len() {
                    assert(before[k] is Some);
                    assert(all[k] == before[k]);
                }
            }
        }
    }
}

/// A left or full join puts out every probe row, and a right or full join
/// every build row, whether it has a match or not.
pub proof fn outer_joins_keep_rows(
    pairs: Seq<(usize, usize)>,
    join_type: JoinType,
    build_rows: nat,
    probe_rows: nat,
    row: usize,
)
    requires
        build_rows <= usize::MAX,
        probe_rows <= usize::MAX,
    ensures
        (join_type == JoinType::Left || join_type == JoinType::Full) && row < probe_rows
            ==> outer_rows(pairs, join_type, build_rows, probe_rows).1.contains(Some(row)),
        (join_type == JoinType::Right || join_type == JoinType::Full) && row < build_rows
            ==> outer_rows(pairs, join_type, build_rows, probe_rows).0.contains(Some(row)),
{
    let (bs, ps) = outer_rows(pairs, join_type, build_rows, probe_rows);
    let ph = probe_hits(pairs, probe_rows);
    let bh = build_hits(pairs, build_rows);
    let lone_probe = rows_where(ph, false, probe_rows);
    let lone_build = rows_where(bh, false, build_rows);
    if (join_type == JoinType::Left || join_type == JoinType::Full) && row < probe_rows {
        lemma_rows_where(ph, false, probe_rows, row);
        if ph[row as int] {
            let k = choose|k: int| 0 <= k < pairs.len() && (#[trigger] pairs[k]).1 == row;
            assert(ps[k] == Some(row));
        } else {
            let k = choose|k: int| 0 <= k < lone_probe.len() && lone_probe[k] == Some(row);
            assert(ps[pairs.len() + k] == Some(row));
        }
    }
    if (join_type == JoinType::Right || join_type == JoinType::Full) && row < build_rows {
        lemma_rows_where(bh, false, build_rows, row);
        if bh[row as int] {
            let k = choose|k: int| 0 <= k < pairs.len() && (#[trigger] pairs[k]).0 == row;
            assert(bs[k] == Some(row));
        } else {
            let k = choose|k: int| 0 <= k < lone_build.len() && lone_build[k] == Some(row);
            if join_type == JoinType::Right {
                assert(bs[pairs.len() + k] == Some(row));
            } else {
                assert(bs[pairs.len() + lone_probe.len() + k] == Some(row));
            }
        }
    }
}

/// A semi join and its anti join part the rows between them.
pub proof fn semi_and_anti_part_the_rows(flags: Seq<bool>, row: usize)
    requires
        row < flags.len() <= usize::MAX,
    ensures
        rows_where(flags, true, flags.len()).contains(Some(row)) <==> !rows_where(
            flags,
            false,
            flags.len(),
        ).contains(Some(row)),
{
    lemma_rows_where(flags, true, flags.len(), row);
    lemma_rows_where(flags, false, flags.len(), row);
}

// ---------------------------------------------------------------------------
// The operator

/// Every pair lies within both sides.
pub open spec fn pairs_below(pairs: Seq<(usize, usize)>, build_rows: nat, probe_rows: nat) -> bool {
    forall|k: int|
        0 <= k < pairs.len() ==> (#[trigger] pairs[k]).0 < build_rows && pairs[k].1 < probe_rows
}

proof fn lemma_no_matching(keys: Seq<ArrayView>, row: Seq<ValueView>, n: nat)
    requires
        forall|j: int|
            0 <= j < n && present_key(#[trigger] row_of(keys, j)) ==> row_of(keys, j) != row,
    ensures
        matching_rows(keys, row, n).len() == 0,
    decreases n,
{
    if n > 0 {
        assert(row_of(keys, n - 1) == row_of(keys, n - 1));
        lemma_no_matching(keys, row, (n - 1) as nat);
    }
}

/// Whether a key has a null.
fn is_null_key(key_arrays: &Vec<ArrayRef>, row: usize) -> (r: bool)
    requires
        forall|c: int|
            0 <= c < key_arrays@.len() ==> row < (#[trigger] key_arrays@[c])@.values.len(),
    ensures
        r == !present_key(row_of(array_views(key_arrays@), row as int)),
{
    let ghost this = row_of(array_views(key_arrays@), row as int);
    let mut c: usize = 0;
    while c < key_arrays.len()
        invariant
            c <= key_arrays@.len(),
            this == row_of(array_views(key_arrays@), row as int),
            forall|c: int|
                0 <= c < key_arrays@.len() ==> row < (#[trigger] key_arrays@[c])@.values.len(),
            forall|k: int| 0 <= k < c ==> #[trigger] this[k] != ValueView::Null,
        decreases key_arrays@.len() - c,
    {
        assert(this[c as int] == key_arrays@[c as int]@.values[row as int]);
        if key_arrays[c].is_null(row) {
            return true;
        }
        c = c + 1;
    }
    false
}

/// The key of each row.
fn row_keys(encoder: &GroupKeyEncoder, arrays: &Vec<ArrayRef>) -> (r: Result<
    Vec<Vec<u8>>,
    BasaltError,
>)
    ensures
        match r {
            Ok(v) => {
                &&& encodable(encoder@, array_views(arrays@))
                &&& v@.len() == column_rows(array_views(arrays@))
                &&& forall|i: int|
                    0 <= i < v@.len() ==> (#[trigger] v@[i])@ == encode_row(
                        row_of(array_views(arrays@), i),
                    )
            },
            Err(e) => e@ == ErrorKind::Internal && !encodable(encoder@, array_views(arrays@)),
        },
{
    let ghost columns = array_views(arrays@);
    let num_rows: usize = if arrays.len() == 0 {
        0
    } else {
        arrays[0].len()
    };
    let mut encoded: Vec<u8> = Vec::new();
    let mut offsets: Vec<u32> = Vec::new();
    match encoder.encode(arrays, &mut encoded, &mut offsets) {
        Ok(_) => {},
        Err(e) => {
            return Err(e);
        },
    }
    proof {
        assert(encoded@ =~= encode_rows(columns, num_rows as nat));
    }
    let mut out: Vec<Vec<u8>> = Vec::new();
    let mut row: usize = 0;
    while row < num_rows
        invariant
            row <= num_rows,
            num_rows == column_rows(columns),
            encoded@ == encode_rows(columns, num_rows as nat),
            encoded@.len() <= u32::MAX,
            offsets@ == Seq::new(
                (num_rows + 1) as nat,
                |k: int| encode_rows(columns, k as nat).len() as u32,
            ),
            out@.len() == row,
            forall|i: int| 0 <= i < row ==> (#[trigger] out@[i])@ == encode_row(row_of(columns, i)),
        decreases num_rows - row,
    {
        let ghost this = row_of(columns, row as int);
        proof {
            lemma_encode_rows_prefix(columns, row as nat, num_rows as nat);
            lemma_encode_rows_prefix(columns, (row + 1) as nat, num_rows as nat);
        }
        let start: usize = offsets[row] as usize;
        let end: usize = offsets[row + 1] as usize;
        let mut key: Vec<u8> = Vec::new();
        let mut i: usize = start;
        assert(encoded@.subrange(start as int, start as int) =~= seq![]);
        while i < end
            invariant
                start <= i <= end,
                end <= encoded@.len(),
                key@ == encoded@.subrange(start as int, i as int),
            decreases end - i,
        {
            key.push(encoded[i]);
            assert(encoded@.subrange(start as int, i + 1) =~= encoded@.subrange(
                start as int,
                i as int,
            ).push(encoded@[i as int]));
            i = i + 1;
        }
        proof {
            let upto = encode_rows(columns, (row + 1) as nat);
            assert(encoded@.take(end as int) == upto);
            assert(key@ =~= upto.skip(start as int));
            assert(upto =~= encode_rows(columns, row as nat) + encode_row(this));
            assert(key@ =~= encode_row(this));
        }
        out.push(key);
        row = row + 1;
    }
    Ok(out)
}

/// The pairs of rows with equal keys.
///
/// # Errors
/// An internal error when the keys cannot be encoded alike, or when there are
/// rows but no keys.
#[verifier::rlimit(60)]
fn join_pairs(
    build_arrays: &Vec<ArrayRef>,
    probe_arrays: &Vec<ArrayRef>,
    build_rows: usize,
    probe_rows: usize,
) -> (r: Result<Vec<(usize, usize)>, BasaltError>)
    requires
        forall|c: int|
            0 <= c < build_arrays@.len() ==> (#[trigger] build_arrays@[c])@.values.len()
                == build_rows,
        forall|c: int|
            0 <= c < probe_arrays@.len() ==> (#[trigger] probe_arrays@[c])@.values.len()
                == probe_rows,
    ensures
        match r {
            Ok(v) => key_pairs(
                array_views(build_arrays@),
                array_views(probe_arrays@),
                build_rows as nat,
                probe_rows as nat,
            ) == Ok::<Seq<(usize, usize)>, ErrorKind>(v@) && pairs_below(
                v@,
                build_rows as nat,
                probe_rows as nat,
            ),
            Err(e) => key_pairs(
                array_views(build_arrays@),
                array_views(probe_arrays@),
                build_rows as nat,
                probe_rows as nat,
            ) == Err::<Seq<(usize, usize)>, ErrorKind>(e@),
        },
{
    let ghost bk = array_views(build_arrays@);
    let ghost pk = array_views(probe_arrays@);
    let ghost types = column_types(bk);
    let mut key_types: Vec<DataType> = Vec::new();
    let mut c: usize = 0;
    while c < build_arrays.len()
        invariant
            c <= build_arrays@.len(),
            bk == array_views(build_arrays@),
            types == column_types(bk),
            key_types@ == types.take(c as int),
        decreases build_arrays@.len() - c,
    {
        key_types.push(build_arrays[c].data_type());
        assert(types.take(c + 1) =~= types.take(c as int).push(types[c as int]));
        c = c + 1;
    }
    assert(key_types@ =~= types);
    let encoder = GroupKeyEncoder::new(key_types);
    let build_encoded = match row_keys(&encoder, build_arrays) {
        Ok(v) => v,
        Err(e) => {
            return Err(e);
        },
    };
    let probe_encoded = match row_keys(&encoder, probe_arrays) {
        Ok(v) => v,
        Err(e) => {
            return Err(e);
        },
    };
    if build_arrays.len() == 0 && (build_rows > 0 || probe_rows > 0) {
        return Err(BasaltError::internal("a hash join needs at least one key"));
    }
    proof {
        assert forall|c: int| 0 <= c < bk.len() implies (#[trigger] bk[c]).wf() by {
            build_arrays@[c].lemma_wf();
        }
        assert forall|c: int| 0 <= c < pk.len() implies (#[trigger] pk[c]).wf() by {
            probe_arrays@[c].lemma_wf();
        }
        if build_arrays@.len() > 0 {
            assert(build_arrays@[0]@.values.len() == build_rows);
            assert(probe_arrays@[0]@.values.len() == probe_rows);
        }
        assert(build_rows == column_rows(bk));
        assert(probe_rows == column_rows(pk));
    }
    let mut index = KeyIndex::new(build_rows);
    let mut positions: Vec<Vec<usize>> = Vec::new();
    let ghost mut krows: Seq<Seq<ValueView>> = seq![];
    let mut row: usize = 0;
    while row < build_rows
        invariant
            row <= build_rows,
            build_rows == column_rows(bk),
            bk == array_views(build_arrays@),
            encodable(types, bk),
            forall|c: int| 0 <= c < bk.len() ==> (#[trigger] bk[c]).wf(),
            forall|c: int|
                0 <= c < build_arrays@.len() ==> (#[trigger] build_arrays@[c])@.values.len()
                    == build_rows,
            build_encoded@.len() == build_rows,
            forall|i: int|
                0 <= i < build_rows ==> (#[trigger] build_encoded@[i])@ == encode_row(
                    row_of(bk, i),
                ),
            index.wf(),
            krows.len() == index@.len(),
            positions@.len() == krows.len(),
            krows.no_duplicates(),
            forall|k: int|
                0 <= k < krows.len() ==> {
                    &&& index@[k] == encode_row(#[trigger] krows[k])
                    &&& row_fits(krows[k], types)
                    &&& positions@[k]@ == matching_rows(bk, krows[k], row as nat)
                },
            forall|j: int|
                0 <= j < row && present_key(#[trigger] row_of(bk, j)) ==> krows.contains(
                    row_of(bk, j),
                ),
        decreases build_rows - row,
    {
        let ghost this = row_of(bk, row as int);
        proof {
            lemma_rows_fit(types, bk, row as int);
        }
        if !is_null_key(build_arrays, row) {
            match index.find(build_encoded[row].as_slice()) {
                Some(k) => {
                    proof {
                        assert(krows[k as int] == krows[k as int]);
                        keys_identify_rows(krows[k as int], this, types);
                        assert(krows[k as int] == this);
                        assert(krows.contains(this));
                    }
                    let ghost before = positions@;
                    let mut list: Vec<usize> = Vec::new();
                    std::mem::swap(&mut list, &mut positions[k]);
                    list.push(row);
                    positions.set(k, list);
                    proof {
                        assert forall|q: int| 0 <= q < krows.len() implies positions@[q]@
                            == matching_rows(bk, #[trigger] krows[q], (row + 1) as nat) by {
                            if q == k {
                                assert(positions@[q]@ =~= before[q]@.push(row));
                            } else {
                                assert(krows[q] != this);
                                assert(positions@[q] == before[q]);
                            }
                        }
                    }
                },
                None => {
                    let ghost old_rows = krows;
                    let ghost before = positions@;
                    proof {
                        if krows.contains(this) {
                            let q = choose|q: int| 0 <= q < krows.len() && krows[q] == this;
                            assert(index@[q] == encode_row(krows[q]));
                            assert(index@.contains(encode_row(this)));
                        }
                        assert forall|j: int|
                            0 <= j < row && present_key(#[trigger] row_of(bk, j)) implies row_of(
                            bk,
                            j,
                        ) != this by {}
                        lemma_no_matching(bk, this, row as nat);
                        krows = krows.push(this);
                    }
                    let mut key: Vec<u8> = Vec::new();
                    let source = &build_encoded[row];
                    let mut i: usize = 0;
                    while i < source.len()
                        invariant
                            i <= source@.len(),
                            key@ == source@.take(i as int),
                        decreases source@.len() - i,
                    {
                        key.push(source[i]);
                        assert(source@.take(i + 1) =~= source@.take(i as int).push(
                            source@[i as int],
                        ));
                        i = i + 1;
                    }
                    assert(key@ =~= source@);
                    index.insert(key);
                    let mut list: Vec<usize> = Vec::new();
                    list.push(row);
                    positions.push(list);
                    proof {
                        assert(matching_rows(bk, this, (row + 1) as nat) =~= seq![row]);
                        assert(list@ =~= seq![row]);
                        assert forall|q: int| 0 <= q < krows.len() implies {
                            &&& index@[q] == encode_row(#[trigger] krows[q])
                            &&& row_fits(krows[q], types)
                            &&& positions@[q]@ == matching_rows(bk, krows[q], (row + 1) as nat)
                        } by {
                            if q < old_rows.len() {
                                assert(krows[q] == old_rows[q]);
                                assert(old_rows.contains(old_rows[q]));
                                assert(krows[q] != this);
                                assert(positions@[q] == before[q]);
                            }
                        }
                        assert forall|j: int|
                            0 <= j < row + 1 && present_key(
                                #[trigger] row_of(bk, j),
                            ) implies krows.contains(row_of(bk, j)) by {
                            if j < row {
                                let q = choose|q: int|
                                    0 <= q < old_rows.len() && old_rows[q] == row_of(bk, j);
                                assert(krows[q] == row_of(bk, j));
                            } else {
                                assert(krows[old_rows.len() as int] == this);
                            }
                        }
                        assert(krows.no_duplicates()) by {
                            assert forall|a: int, b: int|
                                0 <= a < krows.len() && 0 <= b < krows.len() && a
                                    != b implies krows[a] != krows[b] by {
                                if a < old_rows.len() && b < old_rows.len() {
                                    assert(old_rows[a] != old_rows[b]);
                                } else if a < old_rows.len() {
                                    assert(old_rows.contains(old_rows[a]));
                                } else {
                                    assert(old_rows.contains(old_rows[b]));
                                }
                            }
                        }
                    }
                },
            }
        }
        row = row + 1;
    }
    let mut pairs: Vec<(usize, usize)> = Vec::new();
    let mut row: usize = 0;
    while row < probe_rows
        invariant
            row <= probe_rows,
            probe_rows == column_rows(pk),
            pk == array_views(probe_arrays@),
            encodable(types, pk),
            forall|c: int| 0 <= c < pk.len() ==> (#[trigger] pk[c]).wf(),
            forall|c: int|
                0 <= c < probe_arrays@.len() ==> (#[trigger] probe_arrays@[c])@.values.len()
                    == probe_rows,
            probe_encoded@.len() == probe_rows,
            forall|i: int|
                0 <= i < probe_rows ==> (#[trigger] probe_encoded@[i])@ == encode_row(
                    row_of(pk, i),
                ),
            index.wf(),
            krows.len() == index@.len(),
            positions@.len() == krows.len(),
            forall|k: int|
                0 <= k < krows.len() ==> {
                    &&& index@[k] == encode_row(#[trigger] krows[k])
                    &&& row_fits(krows[k], types)
                    &&& positions@[k]@ == matching_rows(bk, krows[k], build_rows as nat)
                },
            forall|j: int|
                0 <= j < build_rows && present_key(#[trigger] row_of(bk, j)) ==> krows.contains(
                    row_of(bk, j),
                ),
            pairs@ == match_pairs(bk, pk, build_rows as nat, row as nat),
            pairs_below(pairs@, build_rows as nat, probe_rows as nat),
        decreases probe_rows - row,
    {
        let ghost this = row_of(pk, row as int);
        proof {
            lemma_rows_fit(types, pk, row as int);
        }
        if !is_null_key(probe_arrays, row) {
            match index.find(probe_encoded[row].as_slice()) {
                Some(k) => {
                    proof {
                        assert(krows[k as int] == krows[k as int]);
                        keys_identify_rows(krows[k as int], this, types);
                    }
                    let list = &positions[k];
                    let ghost before = pairs@;
                    let ghost tail = pairs_with(list@, row as int);
                    let mut i: usize = 0;
                    assert(before + tail.take(0) =~= before);
                    while i < list.len()
                        invariant
                            i <= list@.len(),
                            row < probe_rows,
                            list@ == matching_rows(bk, this, build_rows as nat),
                            tail == pairs_with(list@, row as int),
                            pairs@ == before + tail.take(i as int),
                            pairs_below(pairs@, build_rows as nat, probe_rows as nat),
                        decreases list@.len() - i,
                    {
                        proof {
                            assert(list@.contains(list@[i as int]));
                            lemma_matching_rows(bk, this, build_rows as nat, list@[i as int]);
                        }
                        pairs.push((list[i], row));
                        assert(before + tail.take(i + 1) =~= (before + tail.take(i as int)).push(
                            tail[i as int],
                        ));
                        i = i + 1;
                    }
                    assert(tail.take(i as int) =~= tail);
                },
                None => {
                    proof {
                        if krows.contains(this) {
                            let q = choose|q: int| 0 <= q < krows.len() && krows[q] == this;
                            assert(index@[q] == encode_row(krows[q]));
                            assert(index@.contains(encode_row(this)));
                        }
                        assert forall|j: int|
                            0 <= j < build_rows && present_key(
                                #[trigger] row_of(bk, j),
                            ) implies row_of(bk, j) != this by {}
                        lemma_no_matching(bk, this, build_rows as nat);
                        assert(pairs@ + pairs_with(
                            matching_rows(bk, this, build_rows as nat),
                            row as int,
                        ) =~= pairs@);
                    }
                },
            }
        }
        row = row + 1;
    }
    Ok(pairs)
}

/// The build rows of pairs, each present.
pub fn build_indices(pairs: &Vec<(usize, usize)>) -> (r: Vec<Option<usize>>)
    ensures
        r@ == build_side(pairs@),
{
    let mut out: Vec<Option<usize>> = Vec::new();
    let mut i: usize = 0;
    while i < pairs.len()
        invariant
            i <= pairs@.len(),
            out@ == build_side(pairs@).take(i as int),
        decreases pairs@.len() - i,
    {
        out.push(Some(pairs[i].0));
        assert(build_side(pairs@).take(i + 1) =~= build_side(pairs@).take(i as int).push(
            Some(pairs@[i as int].0),
        ));
        i = i + 1;
    }
    assert(out@ =~= build_side(pairs@));
    out
}

/// The probe rows of pairs, each present.
pub fn probe_indices(pairs: &Vec<(usize, usize)>) -> (r: Vec<Option<usize>>)
    ensures
        r@ == probe_side(pairs@),
{
    let mut out: Vec<Option<usize>> = Vec::new();
    let mut i: usize = 0;
    while i < pairs.len()
        invariant
            i <= pairs@.len(),
            out@ == probe_side(pairs@).take(i as int),
        decreases pairs@.len() - i,
    {
        out.push(Some(pairs[i].1));
        assert(probe_side(pairs@).take(i + 1) =~= probe_side(pairs@).take(i as int).push(
            Some(pairs@[i as int].1),
        ));
        i = i + 1;
    }
    assert(out@ =~= probe_side(pairs@));
    out
}

/// The columns of both sides, gathered.
pub fn join_columns(
    build: &ColumnarBatch,
    probe: &ColumnarBatch,
    build_rows: &Vec<Option<usize>>,
    probe_rows: &Vec<Option<usize>>,
) -> (r: Vec<ArrayRef>)
    requires
        indices_below(build_rows@, build@.num_rows),
        indices_below(probe_rows@, probe@.num_rows),
    ensures
        array_views(r@) == joined_columns(build@, probe@, build_rows@, probe_rows@),
{
    let mut out: Vec<ArrayRef> = Vec::new();
    assert(array_views(out@) =~= seq![]);
    push_taken(&mut out, build, build_rows);
    push_taken(&mut out, probe, probe_rows);
    assert(seq![] + take_columns(build@.columns, build_rows@) =~= take_columns(
        build@.columns,
        build_rows@,
    ));
    out
}

proof fn lemma_joined_fit(
    b: BatchView,
    p: BatchView,
    build_rows: Seq<Option<usize>>,
    probe_rows: Seq<Option<usize>>,
)
    requires
        b.wf(),
        p.wf(),
        indices_below(build_rows, b.num_rows),
        indices_below(probe_rows, p.num_rows),
        build_rows.len() == probe_rows.len(),
    ensures
        columns_fit(b.schema + p.schema, joined_columns(b, p, build_rows, probe_rows)),
{
    lemma_taken_fit(b, build_rows);
    lemma_taken_fit(p, probe_rows);
    let left = take_columns(b.columns, build_rows);
    let right = take_columns(p.columns, probe_rows);
    let all = joined_columns(b, p, build_rows, probe_rows);
    assert forall|c: int| 0 <= c < all.len() implies {
        &&& (#[trigger] all[c]).values.len() == crate::batch::first_len(all)
        &&& all[c].data_type == (b.schema + p.schema)[c].data_type
        &&& all[c].wf()
    } by {
        if c < left.len() {
            assert(all[c] == left[c]);
        } else {
            assert(all[c] == right[c - left.len()]);
            assert(right[c - left.len()].wf());
        }
    }
}

/// The pairs that a residual predicate holds for.
fn apply_residual(
    build: &ColumnarBatch,
    probe: &ColumnarBatch,
    pairs: Vec<(usize, usize)>,
    filter: &Option<PhysicalExprRef>,
) -> (r: Result<Vec<(usize, usize)>, BasaltError>)
    requires
        pairs_below(pairs@, build@.num_rows, probe@.num_rows),
    ensures
        match r {
            Ok(v) => residual_pairs(build@, probe@, pairs@, optional_expr(*filter)) == Ok::<
                Seq<(usize, usize)>,
                ErrorKind,
            >(v@) && pairs_below(v@, build@.num_rows, probe@.num_rows),
            Err(e) => residual_pairs(build@, probe@, pairs@, optional_expr(*filter)) == Err::<
                Seq<(usize, usize)>,
                ErrorKind,
            >(e@),
        },
{
    let f = match filter {
        None => {
            return Ok(pairs);
        },
        Some(f) => f,
    };
    if pairs.len() == 0 {
        return Ok(pairs);
    }
    let build_rows = build_indices(&pairs);
    let probe_rows = probe_indices(&pairs);
    proof {
        assert(pairs@[0].0 < build@.num_rows);
        assert(indices_below(build_rows@, build@.num_rows));
        assert(indices_below(probe_rows@, probe@.num_rows));
    }
    let bw: usize = build.num_columns();
    let columns = join_columns(build, probe, &build_rows, &probe_rows);
    let schema = Arc::new(concat_schemas(build.schema(), probe.schema()));
    proof {
        lemma_joined_fit(build@, probe@, build_rows@, probe_rows@);
    }
    let joined = match ColumnarBatch::try_new(schema, columns) {
        Ok(b) => b,
        Err(e) => {
            return Err(e);
        },
    };
    assert(joined@.num_rows == pairs@.len());
    let mask = match evaluate_rows(f, &joined) {
        Ok(m) => m,
        Err(e) => {
            return Err(e);
        },
    };
    if mask.data_type() != DataType::Boolean {
        return Err(
            BasaltError::type_of("a join predicate must be boolean, found ", mask.data_type().name()),
        );
    }
    let mut kept: Vec<(usize, usize)> = Vec::new();
    let mut i: usize = 0;
    while i < pairs.len()
        invariant
            i <= pairs@.len(),
            mask@.values.len() == pairs@.len(),
            pairs_below(pairs@, build@.num_rows, probe@.num_rows),
            kept@ == keep_pairs(pairs@, mask@.values, i as nat),
            pairs_below(kept@, build@.num_rows, probe@.num_rows),
        decreases pairs@.len() - i,
    {
        if matches!(mask.value(i), Value::Boolean(true)) {
            kept.push(pairs[i]);
        }
        i = i + 1;
    }
    Ok(kept)
}

/// Which rows of a side occur in a pair.
fn mark_hits(pairs: &Vec<(usize, usize)>, build: bool, n: usize) -> (r: Vec<bool>)
    requires
        forall|k: int|
            0 <= k < pairs@.len() ==> (if build {
                (#[trigger] pairs@[k]).0
            } else {
                pairs@[k].1
            }) < n,
    ensures
        build ==> r@ == build_hits(pairs@, n as nat),
        !build ==> r@ == probe_hits(pairs@, n as nat),
{
    let mut flags: Vec<bool> = Vec::new();
    let mut i: usize = 0;
    while i < n
        invariant
            i <= n,
            flags@.len() == i,
            forall|k: int| 0 <= k < i ==> !(#[trigger] flags@[k]),
        decreases n - i,
    {
        flags.push(false);
        i = i + 1;
    }
    let mut k: usize = 0;
    while k < pairs.len()
        invariant
            k <= pairs@.len(),
            flags@.len() == n,
            forall|k: int|
                0 <= k < pairs@.len() ==> (if build {
                    (#[trigger] pairs@[k]).0
                } else {
                    pairs@[k].1
                }) < n,
            forall|i: int|
                0 <= i < n ==> #[trigger] flags@[i] == exists|q: int|
                    0 <= q < k && (if build {
                        (#[trigger] pairs@[q]).0
                    } else {
                        pairs@[q].1
                    }) == i,
        decreases pairs@.len() - k,
    {
        let row: usize = if build {
            pairs[k].0
        } else {
            pairs[k].1
        };
        let ghost before = flags@;
        flags.set(row, true);
        proof {
            assert forall|i: int| 0 <= i < n implies #[trigger] flags@[i] == exists|q: int|
                0 <= q < k + 1 && (if build {
                    (#[trigger] pairs@[q]).0
                } else {
                    pairs@[q].1
                }) == i by {
                if i == row {
                    assert(pairs@[k as int] == pairs@[k as int]);
                } else {
                    assert(flags@[i] == before[i]);
                    if before[i] {
                        let q = choose|q: int|
                            0 <= q < k && (if build {
                                (#[trigger] pairs@[q]).0
                            } else {
                                pairs@[q].1
                            }) == i;
                        assert(0 <= q < k + 1 && (if build {
                            pairs@[q].0
                        } else {
                            pairs@[q].1
                        }) == i);
                    }
                }
            }
        }
        k = k + 1;
    }
    proof {
        if build {
            assert forall|i: int| 0 <= i < n implies #[trigger] flags@[i] == build_hits(
                pairs@,
                n as nat,
            )[i] by {
                if flags@[i] {
                    let q = choose|q: int|
                        0 <= q < pairs@.len() && (if build {
                            (#[trigger] pairs@[q]).0
                        } else {
                            pairs@[q].1
                        }) == i;
                    assert(pairs@[q].0 == i);
                }
            }
            assert(flags@ =~= build_hits(pairs@, n as nat));
        } else {
            assert forall|i: int| 0 <= i < n implies #[trigger] flags@[i] == probe_hits(
                pairs@,
                n as nat,
            )[i] by {
                if flags@[i] {
                    let q = choose|q: int|
                        0 <= q < pairs@.len() && (if build {
                            (#[trigger] pairs@[q]).0
                        } else {
                            pairs@[q].1
                        }) == i;
                    assert(pairs@[q].1 == i);
                }
            }
            assert(flags@ =~= probe_hits(pairs@, n as nat));
        }
    }
    flags
}

/// The rows whose flag is `want`.
fn flagged_rows(flags: &Vec<bool>, want: bool) -> (r: Vec<Option<usize>>)
    ensures
        r@ == rows_where(flags@, want, flags@.len()),
        indices_below(r@, flags@.len()),
{
    let mut out: Vec<Option<usize>> = Vec::new();
    let n: usize = flags.len();
    let mut i: usize = 0;
    while i < n
        invariant
            i <= n,
            n == flags@.len(),
            out@ == rows_where(flags@, want, i as nat),
            indices_below(out@, n as nat),
        decreases n - i,
    {
        if flags[i] == want {
            out.push(Some(i));
        }
        i = i + 1;
    }
    out
}

/// Appends `more` to one list of rows and as many absent rows to the other.
fn append_lone(rows: &mut Vec<Option<usize>>, others: &mut Vec<Option<usize>>, more: &Vec<
    Option<usize>,
>)
    ensures
        final(rows)@ == old(rows)@ + more@,
        final(others)@ == old(others)@ + absent(more@.len()),
{
    let ghost r0 = rows@;
    let ghost o0 = others@;
    let mut i: usize = 0;
    proof {
        assert(rows@ =~= r0 + more@.take(0));
        assert(others@ =~= o0 + absent(0));
    }
    while i < more.len()
        invariant
            i <= more@.len(),
            rows@ == r0 + more@.take(i as int),
            others@ == o0 + absent(i as nat),
        decreases more@.len() - i,
    {
        rows.push(more[i]);
        others.push(None);
        proof {
            assert(r0 + more@.take(i + 1) =~= (r0 + more@.take(i as int)).push(more@[i as int]));
            assert(o0 + absent((i + 1) as nat) =~= (o0 + absent(i as nat)).push(None));
        }
        i = i + 1;
    }
    assert(more@.take(i as int) =~= more@);
}

/// The columns a join puts out.
fn emit_columns(
    build: &ColumnarBatch,
    probe: &ColumnarBatch,
    pairs: &Vec<(usize, usize)>,
    join_type: JoinType,
) -> (r: Vec<ArrayRef>)
    requires
        pairs_below(pairs@, build@.num_rows, probe@.num_rows),
    ensures
        array_views(r@) == output_columns(build@, probe@, pairs@, join_type),
{
    let bn: usize = build.num_rows();
    let pn: usize = probe.num_rows();
    let build_matched = mark_hits(pairs, true, bn);
    let probe_matched = mark_hits(pairs, false, pn);
    let mut out: Vec<ArrayRef> = Vec::new();
    assert(array_views(out@) =~= seq![]);
    match join_type {
        JoinType::LeftSemi => {
            let rows = flagged_rows(&probe_matched, true);
            push_taken(&mut out, probe, &rows);
            assert(array_views(out@) =~= take_columns(probe@.columns, rows@));
            return out;
        },
        JoinType::LeftAnti => {
            let rows = flagged_rows(&probe_matched, false);
            push_taken(&mut out, probe, &rows);
            assert(array_views(out@) =~= take_columns(probe@.columns, rows@));
            return out;
        },
        JoinType::RightSemi => {
            let rows = flagged_rows(&build_matched, true);
            push_taken(&mut out, build, &rows);
            assert(array_views(out@) =~= take_columns(build@.columns, rows@));
            return out;
        },
        JoinType::RightAnti => {
            let rows = flagged_rows(&build_matched, false);
            push_taken(&mut out, build, &rows);
            assert(array_views(out@) =~= take_columns(build@.columns, rows@));
            return out;
        },
        _ => {},
    }
    let mut build_rows = build_indices(pairs);
    let mut probe_rows = probe_indices(pairs);
    proof {
        assert(indices_below(build_rows@, build@.num_rows));
        assert(indices_below(probe_rows@, probe@.num_rows));
    }
    match join_type {
        JoinType::Left => {
            let lone = flagged_rows(&probe_matched, false);
            append_lone(&mut probe_rows, &mut build_rows, &lone);
        },
        JoinType::Full => {
            let lone = flagged_rows(&probe_matched, false);
            append_lone(&mut probe_rows, &mut build_rows, &lone);
            let lone = flagged_rows(&build_matched, false);
            append_lone(&mut build_rows, &mut probe_rows, &lone);
        },
        JoinType::Right => {
            let lone = flagged_rows(&build_matched, false);
            append_lone(&mut build_rows, &mut probe_rows, &lone);
        },
        _ => {},
    }
    join_columns(build, probe, &build_rows, &probe_rows)
}

#[derive(Debug)]
pub struct HashJoinExec {
    pub build: ExecutionPlanRef,
    pub probe: ExecutionPlanRef,
    /// Pairs of a build key and a probe key that have to be equal.
    pub on: Vec<(PhysicalExprRef, PhysicalExprRef)>,
    /// A further condition on matching rows, over the columns of the build
    /// side followed by those of the probe side.
    pub filter: Option<PhysicalExprRef>,
    pub join_type: JoinType,
    pub schema: SchemaRef,
}

impl HashJoinExec {
    pub open spec fn on_views(&self) -> Seq<(PhysicalExprView, PhysicalExprView)> {
        Seq::new(self.on@.len(), |i: int| (self.on@[i].0@, self.on@[i].1@))
    }

    pub open spec fn filter_view(&self) -> Option<PhysicalExprView> {
        optional_expr(self.filter)
    }

    pub open spec fn node(&self) -> ExecView {
        ExecView::HashJoin {
            build: Box::new(self.build@),
            probe: Box::new(self.probe@),
            on: self.on_views(),
            filter: self.filter_view(),
            join_type: self.join_type,
            schema: self.schema@,
        }
    }

    pub fn new(
        build: ExecutionPlanRef,
        probe: ExecutionPlanRef,
        on: Vec<(PhysicalExprRef, PhysicalExprRef)>,
        join_type: JoinType,
        schema: SchemaRef,
    ) -> (r: HashJoinExec)
        ensures
            r == (HashJoinExec { build, probe, on, filter: None, join_type, schema }),
    {
        HashJoinExec { build, probe, on, filter: None, join_type, schema }
    }

    /// A join whose matches also have to satisfy a residual predicate.
    pub fn with_filter(
        build: ExecutionPlanRef,
        probe: ExecutionPlanRef,
        on: Vec<(PhysicalExprRef, PhysicalExprRef)>,
        filter: Option<PhysicalExprRef>,
        join_type: JoinType,
        schema: SchemaRef,
    ) -> (r: HashJoinExec)
        ensures
            r == (HashJoinExec { build, probe, on, filter, join_type, schema }),
    {
        HashJoinExec { build, probe, on, filter, join_type, schema }
    }

    pub fn schema(&self) -> (r: SchemaRef)
        ensures
            r@ == exec_schema(self.node()),
    {
        share(&self.schema)
    }

    pub fn children(&self) -> (r: Vec<ExecutionPlanRef>)
        ensures
            plan_views(r@) == exec_children(self.node()),
    {
        let mut v: Vec<ExecutionPlanRef> = Vec::new();
        v.push(share(&self.build));
        v.push(share(&self.probe));
        assert(plan_views(v@) =~= seq![self.build@, self.probe@]);
        v
    }

    /// # Errors
    /// An internal error unless there are exactly two children.
    pub fn with_new_children(&self, children: Vec<ExecutionPlanRef>) -> (r: Result<
        ExecutionPlanRef,
        BasaltError,
    >)
        ensures
            rebuilt(self.node(), plan_views(children@), r),
    {
        if children.len() != 2 {
            return Err(
                BasaltError::internal_with(
                    "HashJoinExec takes exactly 2 children, got ",
                    children.len(),
                    "",
                ),
            );
        }
        proof {
            assert(plan_views(children@)[0] == children@[0]@);
            assert(plan_views(children@)[1] == children@[1]@);
        }
        let mut on: Vec<(PhysicalExprRef, PhysicalExprRef)> = Vec::new();
        let mut i: usize = 0;
        while i < self.on.len()
            invariant
                i <= self.on@.len(),
                on@ == self.on@.take(i as int),
            decreases self.on@.len() - i,
        {
            on.push((share(&self.on[i].0), share(&self.on[i].1)));
            assert(self.on@.take(i + 1) =~= self.on@.take(i as int).push(self.on@[i as int]));
            i = i + 1;
        }
        assert(on@ =~= self.on@);
        let filter = match &self.filter {
            Some(f) => Some(share(f)),
            None => None,
        };
        let r = HashJoinExec::with_filter(
            share(&children[0]),
            share(&children[1]),
            on,
            filter,
            self.join_type,
            share(&self.schema),
        );
        assert(r.on_views() =~= self.on_views());
        Ok(Arc::new(ExecutionPlan::HashJoin(r)))
    }

    /// Joins the two sides.
    pub fn execute(&self, partition: usize) -> (r: Result<BatchStream, BasaltError>)
        ensures
            match r {
                Ok(s) => run(self.node(), partition) == Ok::<
                    Seq<Result<BatchView, ErrorKind>>,
                    ErrorKind,
                >(stream_view(s@)),
                Err(e) => run(self.node(), partition) == Err::<
                    Seq<Result<BatchView, ErrorKind>>,
                    ErrorKind,
                >(e@),
            },
        decreases self, 1int,
    {
        let build = match materialize(&self.build, partition) {
            Ok(b) => b,
            Err(e) => {
                return Err(e);
            },
        };
        let probe = match materialize(&self.probe, partition) {
            Ok(b) => b,
            Err(e) => {
                return Err(e);
            },
        };
        let ghost on = self.on_views();
        let mut build_exprs: Vec<PhysicalExprRef> = Vec::new();
        let mut probe_exprs: Vec<PhysicalExprRef> = Vec::new();
        let mut i: usize = 0;
        while i < self.on.len()
            invariant
                i <= self.on@.len(),
                on == self.on_views(),
                build_exprs@.len() == i,
                probe_exprs@.len() == i,
                forall|k: int| 0 <= k < i ==> (#[trigger] build_exprs@[k])@ == on[k].0,
                forall|k: int| 0 <= k < i ==> (#[trigger] probe_exprs@[k])@ == on[k].1,
            decreases self.on@.len() - i,
        {
            build_exprs.push(share(&self.on[i].0));
            probe_exprs.push(share(&self.on[i].1));
            i = i + 1;
        }
        proof {
            assert(expr_list(build_exprs@) =~= left_exprs(on));
            assert(expr_list(probe_exprs@) =~= right_exprs(on));
        }
        let build_keys = match evaluate_all(&build_exprs, &build) {
            Ok(v) => v,
            Err(e) => {
                return Err(e);
            },
        };
        let probe_keys = match evaluate_all(&probe_exprs, &probe) {
            Ok(v) => v,
            Err(e) => {
                return Err(e);
            },
        };
        let bn: usize = build.num_rows();
        let pn: usize = probe.num_rows();
        let candidates = match join_pairs(&build_keys, &probe_keys, bn, pn) {
            Ok(v) => v,
            Err(e) => {
                return Err(e);
            },
        };
        let pairs = match apply_residual(&build, &probe, candidates, &self.filter) {
            Ok(v) => v,
            Err(e) => {
                return Err(e);
            },
        };
        let columns = emit_columns(&build, &probe, &pairs, self.join_type);
        match ColumnarBatch::try_new(share(&self.schema), columns) {
            Err(e) => Err(e),
            Ok(b) => {
                let mut out: BatchStream = Vec::new();
                out.push(Ok(b));
                assert(stream_view(out@) =~= seq![Ok(b@)]);
                Ok(out)
            },
        }
    }
}

} // verus!
