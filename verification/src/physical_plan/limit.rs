//! `OFFSET` and `LIMIT`: the batch that crosses either boundary is sliced, and
//! nothing behind the last row wanted is passed on.

use std::sync::Arc;
use vstd::prelude::*;

use crate::array::share;
use crate::batch::{slice_batch, BatchView};
use crate::error::{BasaltError, ErrorKind};
use crate::physical_plan::plan::{
    exec_children, exec_schema, item_view, plan_views, rebuilt, run, stream_view, BatchStream,
    ExecView, ExecutionPlan, ExecutionPlanRef,
};
use crate::types::schema::SchemaRef;
use crate::types::value::ValueView;

verus! {

/// A stream without its first `skip` rows and with at most `fetch` rows.
/// Errors pass through until the last row wanted.
pub open spec fn limit_stream(
    items: Seq<Result<BatchView, ErrorKind>>,
    skip: int,
    fetch: Option<int>,
) -> Seq<Result<BatchView, ErrorKind>>
    decreases items.len(),
{
    if items.len() == 0 || fetch == Some(0int) {
        seq![]
    } else {
        let rest = items.skip(1);
        match items[0] {
            Err(k) => seq![Err(k)] + limit_stream(rest, skip, fetch),
            Ok(b) => if skip >= b.num_rows {
                limit_stream(rest, skip - b.num_rows, fetch)
            } else {
                let kept = if skip > 0 {
                    slice_batch(b, skip, b.num_rows - skip)
                } else {
                    b
                };
                match fetch {
                    None => seq![Ok(kept)] + limit_stream(rest, 0, None),
                    Some(n) => if n < kept.num_rows {
                        seq![Ok(slice_batch(kept, 0, n))]
                    } else {
                        seq![Ok(kept)] + limit_stream(rest, 0, Some(n - kept.num_rows))
                    },
                }
            },
        }
    }
}

/// The rows of a stream without errors.
pub open spec fn stream_rows(items: Seq<Result<BatchView, ErrorKind>>) -> Seq<Seq<ValueView>>
    decreases items.len(),
{
    if items.len() == 0 {
        seq![]
    } else {
        (match items[0] {
            Ok(b) => b.rows(),
            Err(k) => seq![],
        }) + stream_rows(items.skip(1))
    }
}

/// Rows `skip..skip + fetch` of a list, as far as it has them.
pub open spec fn limit_rows(rows: Seq<Seq<ValueView>>, skip: int, fetch: Option<int>) -> Seq<
    Seq<ValueView>,
> {
    let from = if skip < rows.len() {
        skip
    } else {
        rows.len() as int
    };
    let upto = match fetch {
        Some(n) => if from + n < rows.len() {
            from + n
        } else {
            rows.len() as int
        },
        None => rows.len() as int,
    };
    rows.subrange(from, upto)
}

pub(crate) proof fn lemma_slice_rows(b: BatchView, offset: int, len: int)
    requires
        b.wf(),
        0 <= offset,
        0 <= len,
        offset + len <= b.num_rows,
    ensures
        slice_batch(b, offset, len).rows() == b.rows().subrange(offset, offset + len),
        slice_batch(b, offset, len).num_rows == len,
        slice_batch(b, offset, len).wf(),
{
    let s = slice_batch(b, offset, len);
    if b.columns.len() == 0 {
        assert(b.num_rows == 0);
    }
    assert forall|i: int| 0 <= i < len implies s.row(i) == b.row(offset + i) by {
        assert forall|c: int| 0 <= c < b.columns.len() implies s.columns[c].values[i]
            == b.columns[c].values[offset + i] by {
            assert(b.columns[c].values.len() == b.num_rows);
        }
        assert(s.row(i) =~= b.row(offset + i));
    }
    assert(s.rows() =~= b.rows().subrange(offset, offset + len));
    assert forall|c: int| 0 <= c < s.columns.len() implies {
        &&& (#[trigger] s.columns[c]).values.len() == crate::batch::first_len(s.columns)
        &&& s.columns[c].data_type == s.schema[c].data_type
        &&& s.columns[c].wf()
    } by {
        assert(b.columns[c].values.len() == b.num_rows);
        assert(b.columns[0].values.len() == b.num_rows);
        assert(b.columns[c].wf());
        assert forall|i: int| 0 <= i < s.columns[c].values.len() implies (
        #[trigger] s.columns[c].values[i]).fits(s.columns[c].data_type) by {
            assert(b.columns[c].values[offset + i].fits(b.columns[c].data_type));
        }
    }
}

/// A limited stream has no empty batch.
pub proof fn limits_deliver_no_empty_batches(
    items: Seq<Result<BatchView, ErrorKind>>,
    skip: int,
    fetch: Option<int>,
)
    requires
        skip >= 0,
        fetch matches Some(n) ==> n >= 0,
        forall|i: int| 0 <= i < items.len() ==> ((#[trigger] items[i]) matches Ok(b) ==> b.wf()),
    ensures
        forall|i: int|
            0 <= i < limit_stream(items, skip, fetch).len() ==> ((#[trigger] limit_stream(
                items,
                skip,
                fetch,
            )[i]) matches Ok(b) ==> b.num_rows > 0),
    decreases items.len(),
{
    let out = limit_stream(items, skip, fetch);
    if items.len() > 0 && fetch != Some(0int) {
        let rest = items.skip(1);
        assert forall|i: int| 0 <= i < rest.len() implies ((#[trigger] rest[i]) matches Ok(b)
            ==> b.wf()) by {
            assert(rest[i] == items[i + 1]);
        }
        match items[0] {
            Err(k) => {
                limits_deliver_no_empty_batches(rest, skip, fetch);
                let tail = limit_stream(rest, skip, fetch);
                assert forall|i: int| 0 <= i < out.len() implies ((#[trigger] out[i]) matches Ok(
                    b,
                ) ==> b.num_rows > 0) by {
                    if i > 0 {
                        assert(out[i] == tail[i - 1]);
                    }
                }
            },
            Ok(b) => if skip >= b.num_rows {
                limits_deliver_no_empty_batches(rest, skip - b.num_rows, fetch);
            } else {
                let kept = if skip > 0 {
                    slice_batch(b, skip, b.num_rows - skip)
                } else {
                    b
                };
                assert(kept.num_rows > 0);
                let left = match fetch {
                    None => None,
                    Some(n) => Some(n - kept.num_rows),
                };
                if left matches Some(n) ==> n >= 0 {
                    limits_deliver_no_empty_batches(rest, 0, left);
                    let tail = limit_stream(rest, 0, left);
                    assert forall|i: int| 0 <= i < out.len() implies (
                    (#[trigger] out[i]) matches Ok(b) ==> b.num_rows > 0) by {
                        if i > 0 {
                            assert(out[i] == tail[i - 1]);
                        }
                    }
                }
            },
        }
    }
}

/// Without errors, a limited stream has exactly the rows asked for.
pub proof fn limit_keeps_the_rows_asked_for(
    items: Seq<Result<BatchView, ErrorKind>>,
    skip: int,
    fetch: Option<int>,
)
    requires
        skip >= 0,
        fetch matches Some(n) ==> n >= 0,
        forall|i: int| 0 <= i < items.len() ==> (#[trigger] items[i]) is Ok && items[i]->Ok_0.wf(),
    ensures
        stream_rows(limit_stream(items, skip, fetch)) == limit_rows(
            stream_rows(items),
            skip,
            fetch,
        ),
    decreases items.len(),
{
    let rows = stream_rows(items);
    let out = limit_stream(items, skip, fetch);
    if items.len() == 0 || fetch == Some(0int) {
        assert(stream_rows(out) =~= limit_rows(rows, skip, fetch));
    } else {
        let b = items[0]->Ok_0;
        assert(items[0] is Ok && b.wf());
        let rest = items.skip(1);
        let tail = stream_rows(rest);
        assert(rows == b.rows() + tail);
        assert forall|i: int| 0 <= i < rest.len() implies (#[trigger] rest[i]) is Ok
            && rest[i]->Ok_0.wf() by {
            assert(items[i + 1] is Ok);
        }
        if skip >= b.num_rows {
            limit_keeps_the_rows_asked_for(rest, skip - b.num_rows, fetch);
            assert(limit_rows(rows, skip, fetch) =~= limit_rows(tail, skip - b.num_rows, fetch));
        } else {
            let kept = if skip > 0 {
                slice_batch(b, skip, b.num_rows - skip)
            } else {
                b
            };
            lemma_slice_rows(b, skip, b.num_rows - skip);
            assert(kept.rows() =~= b.rows().skip(skip));
            match fetch {
                None => {
                    limit_keeps_the_rows_asked_for(rest, 0, None);
                    assert(out.skip(1) =~= limit_stream(rest, 0, None));
                    assert(stream_rows(out) =~= limit_rows(rows, skip, fetch));
                },
                Some(n) => {
                    if n < kept.num_rows {
                        lemma_slice_rows(kept, 0, n);
                        assert(out.skip(1) =~= seq![]);
                        assert(stream_rows(out.skip(1)) =~= seq![]);
                        assert(stream_rows(out) =~= limit_rows(rows, skip, fetch));
                    } else {
                        let left = n - kept.num_rows;
                        limit_keeps_the_rows_asked_for(rest, 0, Some(left));
                        assert(out.skip(1) =~= limit_stream(rest, 0, Some(left)));
                        assert(stream_rows(out) =~= limit_rows(rows, skip, fetch));
                    }
                },
            }
        }
    }
}

#[derive(Debug)]
pub struct LimitExec {
    pub input: ExecutionPlanRef,
    pub skip: usize,
    pub fetch: Option<usize>,
}

impl LimitExec {
    pub open spec fn node(&self) -> ExecView {
        ExecView::Limit { input: Box::new(self.input@), skip: self.skip, fetch: self.fetch }
    }

    pub fn new(input: ExecutionPlanRef, skip: usize, fetch: Option<usize>) -> (r: LimitExec)
        ensures
            r == (LimitExec { input, skip, fetch }),
    {
        LimitExec { input, skip, fetch }
    }

    pub fn schema(&self) -> (r: SchemaRef)
        ensures
            r@ == exec_schema(self.node()),
        decreases self,
    {
        self.input.schema()
    }

    pub fn children(&self) -> (r: Vec<ExecutionPlanRef>)
        ensures
            plan_views(r@) == exec_children(self.node()),
    {
        let mut v: Vec<ExecutionPlanRef> = Vec::new();
        v.push(share(&self.input));
        assert(plan_views(v@) =~= seq![self.input@]);
        v
    }

    /// # Errors
    /// An internal error unless there is exactly one child.
    pub fn with_new_children(&self, children: Vec<ExecutionPlanRef>) -> (r: Result<
        ExecutionPlanRef,
        BasaltError,
    >)
        ensures
            rebuilt(self.node(), plan_views(children@), r),
    {
        if children.len() != 1 {
            return Err(
                BasaltError::internal_with("LimitExec takes exactly 1 child, got ", children.len(), ""),
            );
        }
        assert(plan_views(children@)[0] == children@[0]@);
        Ok(
            Arc::new(
                ExecutionPlan::Limit(LimitExec::new(share(&children[0]), self.skip, self.fetch)),
            ),
        )
    }

    /// Slices the input's batches.
    pub fn execute(&self, partition: usize) -> (r: Result<BatchStream, BasaltError>)
        ensures
            match r {
                Ok(s) => run(self.node(), partition) == Ok::<
                    Seq<Result<BatchView, ErrorKind>>,
                    ErrorKind,
                >(stream_view(s@)),
                Err(e) => run(self.node(), partition) == Err::<
                    Seq<Result<BatchView, ErrorKind>>,
                    ErrorKind,
                >(e@),
            },
        decreases self, 1int,
    {
        let input = match self.input.execute(partition) {
            Ok(s) => s,
            Err(e) => {
                return Err(e);
            },
        };
        let ghost items = stream_view(input@);
        let ghost want = limit_stream(
            items,
            self.skip as int,
            match self.fetch {
                Some(n) => Some(n as int),
                None => None,
            },
        );
        let mut out: BatchStream = Vec::new();
        let mut skip: usize = self.skip;
        let mut fetch: Option<usize> = self.fetch;
        let mut i: usize = 0;
        proof {
            assert(items.skip(0) =~= items);
            assert(stream_view(out@) + want =~= want);
        }
        while i < input.len()
            invariant
                i <= input@.len(),
                items == stream_view(input@),
                want == stream_view(out@) + limit_stream(
                    items.skip(i as int),
                    skip as int,
                    match fetch {
                        Some(n) => Some(n as int),
                        None => None,
                    },
                ),
                want == limit_stream(
                    items,
                    self.skip as int,
                    match self.fetch {
                        Some(n) => Some(n as int),
                        None => None,
                    },
                ),
                run(self.node(), partition) == Ok::<
                    Seq<Result<BatchView, ErrorKind>>,
                    ErrorKind,
                >(want),
            decreases input@.len() - i,
        {
            let ghost was = stream_view(out@);
            let ghost ahead = items.skip(i as int);
            proof {
                assert(ahead[0] == item_view(input@[i as int]));
                assert(ahead.skip(1) =~= items.skip(i + 1));
            }
            if fetch == Some(0) {
                assert(want =~= stream_view(out@));
                return Ok(out);
            }
            match &input[i] {
                Err(e) => {
                    out.push(Err(e.copy()));
                    proof {
                        assert(stream_view(out@) =~= was.push(Err(e@)));
                    }
                },
                Ok(b) => {
                    let n: usize = b.num_rows();
                    if skip >= n {
                        skip = skip - n;
                    } else {
                        let kept = if skip > 0 {
                            proof {
                                lemma_slice_rows(b@, skip as int, n - skip);
                            }
                            b.slice(skip, n - skip)
                        } else {
                            b.copy()
                        };
                        skip = 0;
                        let m: usize = kept.num_rows();
                        match fetch {
                            None => {
                                out.push(Ok(kept));
                                proof {
                                    assert(stream_view(out@) =~= was.push(Ok(kept@)));
                                }
                            },
                            Some(left) => {
                                if left < m {
                                    let part = kept.slice(0, left);
                                    out.push(Ok(part));
                                    proof {
                                        assert(stream_view(out@) =~= was.push(Ok(part@)));
                                        assert(want =~= stream_view(out@));
                                    }
                                    return Ok(out);
                                }
                                out.push(Ok(kept));
                                proof {
                                    assert(stream_view(out@) =~= was.push(Ok(kept@)));
                                }
                                fetch = Some(left - m);
                            },
                        }
                    }
                },
            }
            i = i + 1;
            proof {
                assert(want =~= stream_view(out@) + limit_stream(
                    items.skip(i as int),
                    skip as int,
                    match fetch {
                        Some(n) => Some(n as int),
                        None => None,
                    },
                ));
            }
        }
        proof {
            assert(items.skip(i as int) =~= seq![]);
            assert(want =~= stream_view(out@));
        }
        Ok(out)
    }
}

} // verus!
