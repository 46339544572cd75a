//! Batches: equally long columns under a schema.

use std::sync::Arc;
use vstd::prelude::*;

use crate::array::{share, Array, ArrayRef, ArrayView};
use crate::error::{BasaltError, ErrorKind};
use crate::types::schema::{FieldView, SchemaRef};
use crate::types::value::ValueView;

verus! {

#[derive(Debug)]
pub struct ColumnarBatch {
    schema: SchemaRef,
    columns: Vec<ArrayRef>,
    num_rows: usize,
}

/// The model of a batch.
pub struct BatchView {
    pub schema: Seq<FieldView>,
    pub columns: Seq<ArrayView>,
    pub num_rows: nat,
}

/// The models of a list of arrays.
pub open spec fn array_views(v: Seq<ArrayRef>) -> Seq<ArrayView> {
    Seq::new(v.len(), |i: int| v[i]@)
}

/// The length of the first column; zero without columns.
pub open spec fn first_len(columns: Seq<ArrayView>) -> nat {
    if columns.len() == 0 {
        0
    } else {
        columns[0].values.len()
    }
}

/// Whether columns match a schema in number and type, and each other in length.
pub open spec fn columns_fit(schema: Seq<FieldView>, columns: Seq<ArrayView>) -> bool {
    &&& columns.len() == schema.len()
    &&& forall|i: int|
        0 <= i < columns.len() ==> {
            &&& (#[trigger] columns[i]).values.len() == first_len(columns)
            &&& columns[i].data_type == schema[i].data_type
            &&& columns[i].wf()
        }
}

/// The batch that `try_new` makes of fitting columns.
pub open spec fn batch_of(schema: Seq<FieldView>, columns: Seq<ArrayView>) -> BatchView {
    BatchView { schema, columns, num_rows: first_len(columns) }
}

impl BatchView {
    pub open spec fn wf(self) -> bool {
        columns_fit(self.schema, self.columns) && self.num_rows == first_len(self.columns)
    }

    /// The values of one row, left to right.
    pub open spec fn row(self, i: int) -> Seq<ValueView> {
        Seq::new(self.columns.len(), |c: int| self.columns[c].values[i])
    }

    pub open spec fn rows(self) -> Seq<Seq<ValueView>> {
        Seq::new(self.num_rows, |i: int| self.row(i))
    }
}

/// `values[offset..offset + len]` of an array.
pub open spec fn slice_array(a: ArrayView, offset: int, len: int) -> ArrayView {
    ArrayView { data_type: a.data_type, values: a.values.subrange(offset, offset + len) }
}

/// Rows `offset..offset + len` of a batch.
pub open spec fn slice_batch(b: BatchView, offset: int, len: int) -> BatchView {
    BatchView {
        schema: b.schema,
        columns: Seq::new(b.columns.len(), |c: int| slice_array(b.columns[c], offset, len)),
        num_rows: if b.columns.len() == 0 {
            0
        } else {
            len as nat
        },
    }
}

impl ColumnarBatch {
    pub closed spec fn view(&self) -> BatchView {
        BatchView {
            schema: self.schema@,
            columns: array_views(self.columns@),
            num_rows: self.num_rows as nat,
        }
    }

    #[verifier::type_invariant]
    spec fn inv(self) -> bool {
        &&& columns_fit(self.schema@, array_views(self.columns@))
        &&& self.num_rows == first_len(array_views(self.columns@))
    }

    /// A batch of columns under a schema.
    ///
    /// # Errors
    /// An internal error when the columns differ from the schema in number or
    /// type, or from one another in length.
    pub fn try_new(schema: SchemaRef, columns: Vec<ArrayRef>) -> (r: Result<
        ColumnarBatch,
        BasaltError,
    >)
        ensures
            match r {
                Ok(b) => columns_fit(schema@, array_views(columns@)) && b@ == batch_of(
                    schema@,
                    array_views(columns@),
                ),
                Err(e) => e@ == ErrorKind::Internal && !columns_fit(schema@, array_views(columns@)),
            },
    {
        let ghost views = array_views(columns@);
        if columns.len() != schema.len() {
            return Err(BasaltError::internal_with("a batch got ", columns.len(), " columns"));
        }
        let num_rows: usize = if columns.len() == 0 {
            0
        } else {
            columns[0].len()
        };
        let mut i: usize = 0;
        while i < columns.len()
            invariant
                i <= columns@.len(),
                views == array_views(columns@),
                columns@.len() == schema@.len(),
                num_rows == first_len(views),
                forall|k: int|
                    0 <= k < i ==> {
                        &&& (#[trigger] views[k]).values.len() == first_len(views)
                        &&& views[k].data_type == schema@[k].data_type
                        &&& views[k].wf()
                    },
            decreases columns@.len() - i,
        {
            let fields = schema.fields();
            proof {
                columns@[i as int].lemma_wf();
                assert(views[i as int] == columns@[i as int]@);
                assert(fields@[i as int]@ == schema@[i as int]);
            }
            if columns[i].len() != num_rows {
                return Err(BasaltError::internal_with("column ", i, " has another length"));
            }
            if columns[i].data_type() != fields[i].data_type {
                return Err(BasaltError::internal_with("column ", i, " has another type"));
            }
            i = i + 1;
        }
        Ok(ColumnarBatch { schema, columns, num_rows })
    }

    pub fn num_rows(&self) -> (r: usize)
        ensures
            r == self@.num_rows,
            self@.wf(),
    {
        proof {
            use_type_invariant(self);
        }
        self.num_rows
    }

    pub fn num_columns(&self) -> (r: usize)
        ensures
            r == self@.columns.len(),
            self@.wf(),
    {
        proof {
            use_type_invariant(self);
        }
        self.columns.len()
    }

    /// The column at `i`.
    pub fn column(&self, i: usize) -> (r: Option<&ArrayRef>)
        ensures
            match r {
                Some(a) => i < self@.columns.len() && a@ == self@.columns[i as int],
                None => i >= self@.columns.len(),
            },
            self@.wf(),
    {
        proof {
            use_type_invariant(self);
        }
        if i < self.columns.len() {
            Some(&self.columns[i])
        } else {
            None
        }
    }

    pub fn schema(&self) -> (r: &SchemaRef)
        ensures
            r@ == self@.schema,
            self@.wf(),
    {
        proof {
            use_type_invariant(self);
        }
        &self.schema
    }

    /// Another handle on the same columns.
    pub fn copy(&self) -> (r: ColumnarBatch)
        ensures
            r@ == self@,
            self@.wf(),
    {
        proof {
            use_type_invariant(self);
        }
        let columns = share_columns(&self.columns);
        ColumnarBatch { schema: share(&self.schema), columns, num_rows: self.num_rows }
    }

    /// Rows `offset..offset + len`.
    pub fn slice(&self, offset: usize, len: usize) -> (r: ColumnarBatch)
        requires
            offset + len <= self@.num_rows,
        ensures
            r@ == slice_batch(self@, offset as int, len as int),
    {
        proof {
            use_type_invariant(self);
        }
        let mut columns: Vec<ArrayRef> = Vec::new();
        let ghost all = array_views(self.columns@);
        let mut c: usize = 0;
        while c < self.columns.len()
            invariant
                c <= self.columns@.len(),
                all == array_views(self.columns@),
                columns_fit(self.schema@, all),
                offset + len <= first_len(all),
                columns@.len() == c,
                forall|k: int|
                    0 <= k < c ==> (#[trigger] columns@[k])@ == slice_array(
                        all[k],
                        offset as int,
                        len as int,
                    ),
            decreases self.columns@.len() - c,
        {
            assert(all[c as int] == self.columns@[c as int]@);
            let part = slice_values(&self.columns[c], offset, len);
            columns.push(Arc::new(part));
            c = c + 1;
        }
        let num_rows: usize = if columns.len() == 0 {
            0
        } else {
            len
        };
        proof {
            let views = array_views(columns@);
            assert forall|k: int| 0 <= k < views.len() implies {
                &&& (#[trigger] views[k]).values.len() == first_len(views)
                &&& views[k].data_type == self.schema@[k].data_type
                &&& views[k].wf()
            } by {
                assert(views[k] == slice_array(all[k], offset as int, len as int));
                assert(views[0] == slice_array(all[0], offset as int, len as int));
                assert(all[k].wf());
                columns@[k].lemma_wf();
            }
        }
        let r = ColumnarBatch { schema: share(&self.schema), columns, num_rows };
        assert(r@.columns =~= slice_batch(self@, offset as int, len as int).columns);
        r
    }
}

impl Clone for ColumnarBatch {
    fn clone(&self) -> (r: ColumnarBatch)
        ensures
            r@ == self@,
    {
        self.copy()
    }
}

/// Values `offset..offset + len` of an array.
pub fn slice_values(a: &Array, offset: usize, len: usize) -> (r: Array)
    requires
        offset + len <= a@.values.len(),
    ensures
        r@ == slice_array(a@, offset as int, len as int),
{
    let n: usize = a.len();
    let mut out = Array::empty(a.data_type());
    let mut i: usize = 0;
    while i < len
        invariant
            i <= len,
            n == a@.values.len(),
            offset + len <= n,
            out@.data_type == a@.data_type,
            out@.values == a@.values.subrange(offset as int, offset + i),
        decreases len - i,
    {
        out.push(a.value(offset + i));
        assert(a@.values.subrange(offset as int, offset + i + 1) =~= a@.values.subrange(
            offset as int,
            offset + i,
        ).push(a@.values[offset + i]));
        i = i + 1;
    }
    out
}

/// Handles on the same arrays.
pub fn share_columns(columns: &Vec<ArrayRef>) -> (r: Vec<ArrayRef>)
    ensures
        r@ == columns@,
{
    let mut out: Vec<ArrayRef> = Vec::new();
    let mut i: usize = 0;
    while i < columns.len()
        invariant
            i <= columns@.len(),
            out@ == columns@.take(i as int),
        decreases columns@.len() - i,
    {
        out.push(share(&columns[i]));
        assert(columns@.take(i + 1) =~= columns@.take(i as int).push(columns@[i as int]));
        i = i + 1;
    }
    assert(out@ =~= columns@);
    out
}

} // verus!
