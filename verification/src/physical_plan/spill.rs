//! What an external sort is made of: a memory budget, and batches as bytes.
//!
//! A spilled batch is its number of rows and the length of its encoded rows,
//! eight bytes each, then the encoded rows, then the boundaries between them,
//! four bytes each, all numbers least significant byte first. A row is encoded
//! like a group key over all columns.

use std::sync::Arc;
use vstd::prelude::*;

use crate::array::{Array, ArrayRef, ArrayView};
use crate::batch::{array_views, batch_of, BatchView, ColumnarBatch};
use crate::error::{BasaltError, ErrorKind};
use crate::physical_plan::aggregate::group_keys::{
    column_rows, decode_inverts_encode, decode_row, encode_row, encode_rows,
    lemma_encode_rows_prefix, power_256, row_of, GroupKeyEncoder,
};
use crate::physical_plan::aggregate::hash_table::{encodable, lemma_rows_fit};
use crate::types::data_type::DataType;
use crate::types::schema::{FieldView, SchemaRef};
use crate::types::value::ValueView;

verus! {

/// A memory budget of one operator.
pub struct MemoryReservation {
    limit: usize,
    used: usize,
}

/// The model of a budget.
pub struct ReservationView {
    pub limit: nat,
    pub used: nat,
}

impl ReservationView {
    /// The budget with `bytes` more in use; `None` when they exceed what is left.
    pub open spec fn grown(self, bytes: nat) -> Option<ReservationView> {
        if self.used + bytes <= self.limit {
            Some(ReservationView { limit: self.limit, used: self.used + bytes })
        } else {
            None
        }
    }

    /// The budget with `bytes` given back, or all that is in use when that is
    /// less.
    pub open spec fn shrunk(self, bytes: nat) -> ReservationView {
        ReservationView {
            limit: self.limit,
            used: if bytes < self.used {
                (self.used - bytes) as nat
            } else {
                0
            },
        }
    }
}

impl MemoryReservation {
    pub closed spec fn view(&self) -> ReservationView {
        ReservationView { limit: self.limit as nat, used: self.used as nat }
    }

    /// No more is in use than the limit allows.
    #[verifier::type_invariant]
    spec fn inv(self) -> bool {
        self.used <= self.limit
    }

    pub fn new(limit: usize) -> (r: MemoryReservation)
        ensures
            r@ == (ReservationView { limit: limit as nat, used: 0 }),
    {
        MemoryReservation { limit, used: 0 }
    }

    /// Takes `bytes` of the budget.
    ///
    /// # Errors
    /// An internal error, with nothing taken, when they exceed what is left.
    pub fn try_grow(&mut self, bytes: usize) -> (r: Result<(), BasaltError>)
        ensures
            match r {
                Ok(_) => old(self)@.used + bytes <= old(self)@.limit && final(self)@ == (
                ReservationView { limit: old(self)@.limit, used: old(self)@.used + bytes as nat }),
                Err(e) => e@ == ErrorKind::Internal && old(self)@.used + bytes > old(self)@.limit
                    && final(self)@ == old(self)@,
            },
            match old(self)@.grown(bytes as nat) {
                Some(v) => r is Ok && final(self)@ == v,
                None => r is Err && final(self)@ == old(self)@,
            },
    {
        proof {
            use_type_invariant(&*self);
        }
        if bytes > self.limit - self.used {
            return Err(BasaltError::internal_with("memory reservation exceeded its limit of ", self.limit, ""));
        }
        self.used = self.used + bytes;
        Ok(())
    }

    /// Gives `bytes` back, or all that is in use when that is less.
    pub fn shrink(&mut self, bytes: usize)
        ensures
            final(self)@ == old(self)@.shrunk(bytes as nat),
            final(self)@.limit == old(self)@.limit,
            final(self)@.used == (if bytes < old(self)@.used {
                old(self)@.used - bytes
            } else {
                0
            }),
    {
        proof {
            use_type_invariant(&*self);
        }
        if bytes < self.used {
            self.used = self.used - bytes;
        } else {
            self.used = 0;
        }
    }

    pub fn used(&self) -> (r: usize)
        ensures
            r == self@.used,
            r <= self@.limit,
    {
        proof {
            use_type_invariant(self);
        }
        self.used
    }

    pub fn limit(&self) -> (r: usize)
        ensures
            r == self@.limit,
    {
        self.limit
    }
}

// ---------------------------------------------------------------------------
// The format

/// The last `width` base-256 digits of `n`, least significant first.
pub open spec fn little_endian(n: int, width: nat) -> Seq<u8>
    decreases width,
{
    if width == 0 {
        seq![]
    } else {
        seq![(n % 256) as u8] + little_endian(n / 256, (width - 1) as nat)
    }
}

/// The number that base-256 digits stand for, least significant first.
pub open spec fn little_endian_value(s: Seq<u8>) -> int
    decreases s.len(),
{
    if s.len() == 0 {
        0
    } else {
        s[0] + 256 * little_endian_value(s.skip(1))
    }
}

/// The types of a schema.
pub open spec fn schema_types(schema: Seq<FieldView>) -> Seq<DataType> {
    Seq::new(schema.len(), |i: int| schema[i].data_type)
}

/// The first `n` boundaries between encoded rows.
pub open spec fn boundary_bytes(columns: Seq<ArrayView>, n: nat) -> Seq<u8>
    decreases n,
{
    if n == 0 {
        seq![]
    } else {
        boundary_bytes(columns, (n - 1) as nat) + little_endian(
            encode_rows(columns, (n - 1) as nat).len() as int,
            4,
        )
    }
}

/// A batch as bytes.
pub open spec fn batch_bytes(b: BatchView) -> Seq<u8> {
    let rows = encode_rows(b.columns, b.num_rows);
    little_endian(b.num_rows as int, 8) + little_endian(rows.len() as int, 8) + rows
        + boundary_bytes(b.columns, b.num_rows + 1)
}

/// The number of bytes of a batch of `n` rows, `m` bytes encoded.
pub open spec fn batch_size(n: int, m: int) -> int {
    16 + m + 4 * (n + 1)
}

/// The number at `at`.
pub open spec fn number_at(s: Seq<u8>, at: int, width: int) -> int {
    little_endian_value(s.subrange(at, at + width))
}

/// The boundary before row `k`.
pub open spec fn boundary_at(s: Seq<u8>, k: int) -> int {
    number_at(s, 16 + number_at(s, 8, 8) + 4 * k, 4)
}

/// The bytes of row `k`.
pub open spec fn row_bytes(s: Seq<u8>, k: int) -> Seq<u8> {
    s.subrange(16 + boundary_at(s, k), 16 + boundary_at(s, k + 1))
}

/// Whether row `k` can be read.
pub open spec fn row_readable(s: Seq<u8>, types: Seq<DataType>, k: int) -> bool {
    &&& boundary_at(s, k) <= boundary_at(s, k + 1) <= number_at(s, 8, 8)
    &&& decode_row(row_bytes(s, k), types) is Some
}

/// The value of row `k` in column `c`.
pub open spec fn cell_at(s: Seq<u8>, types: Seq<DataType>, k: int, c: int) -> ValueView {
    decode_row(row_bytes(s, k), types)->0[c]
}

/// Column `c` of a batch read from bytes.
pub open spec fn column_at(s: Seq<u8>, types: Seq<DataType>, c: int) -> ArrayView {
    ArrayView {
        data_type: types[c],
        values: Seq::new(number_at(s, 0, 8) as nat, |k: int| cell_at(s, types, k, c)),
    }
}

/// The batch at the front of bytes and how many bytes it takes; `None` when
/// they are cut short or hold no such batch.
pub open spec fn parse_batch(s: Seq<u8>, schema: Seq<FieldView>) -> Option<(BatchView, int)> {
    let types = schema_types(schema);
    if s.len() < 16 || s.len() < batch_size(number_at(s, 0, 8), number_at(s, 8, 8)) {
        None
    } else if exists|k: int| 0 <= k < number_at(s, 0, 8) && !#[trigger] row_readable(s, types, k) {
        None
    } else {
        Some(
            (
                batch_of(schema, Seq::new(types.len(), |c: int| column_at(s, types, c))),
                batch_size(number_at(s, 0, 8), number_at(s, 8, 8)),
            ),
        )
    }
}

// ---------------------------------------------------------------------------
// Laws

proof fn lemma_little_endian(n: int, width: nat)
    requires
        0 <= n < power_256(width),
    ensures
        little_endian(n, width).len() == width,
        little_endian_value(little_endian(n, width)) == n,
    decreases width,
{
    if width > 0 {
        let p = power_256((width - 1) as nat);
        assert(n / 256 < p) by (nonlinear_arith)
            requires
                n < p * 256,
        ;
        lemma_little_endian(n / 256, (width - 1) as nat);
        let s = little_endian(n, width);
        assert(s.skip(1) =~= little_endian(n / 256, (width - 1) as nat));
        assert(s[0] == n % 256);
    }
}

proof fn lemma_value_bound(s: Seq<u8>)
    ensures
        0 <= little_endian_value(s) < power_256(s.len()),
    decreases s.len(),
{
    if s.len() > 0 {
        lemma_value_bound(s.skip(1));
    }
}

proof fn lemma_powers()
    ensures
        power_256(4) == 0x1_0000_0000,
        power_256(8) == 0x1_0000_0000_0000_0000,
{
    reveal_with_fuel(power_256, 9);
}

proof fn lemma_boundaries(columns: Seq<ArrayView>, n: nat, k: int)
    requires
        forall|j: int|
            0 <= j < n ==> (#[trigger] encode_rows(columns, j as nat)).len() <= u32::MAX,
    ensures
        boundary_bytes(columns, n).len() == 4 * n,
        0 <= k < n ==> boundary_bytes(columns, n).subrange(4 * k, 4 * k + 4) == little_endian(
            encode_rows(columns, k as nat).len() as int,
            4,
        ),
    decreases n,
{
    if n > 0 {
        lemma_boundaries(columns, (n - 1) as nat, k);
        lemma_powers();
        let last = (n - 1) as nat;
        assert(encode_rows(columns, last as int as nat).len() <= u32::MAX);
        lemma_little_endian(encode_rows(columns, last).len() as int, 4);
        let before = boundary_bytes(columns, last);
        let all = boundary_bytes(columns, n);
        if 0 <= k < n - 1 {
            assert(all.subrange(4 * k, 4 * k + 4) =~= before.subrange(4 * k, 4 * k + 4));
        } else if k == n - 1 {
            assert(all.subrange(4 * k, 4 * k + 4) =~= little_endian(
                encode_rows(columns, last).len() as int,
                4,
            ));
        }
    }
}

/// Reading gives back the batch that was written, and leaves what was written
/// after it.
pub proof fn read_inverts_write(b: BatchView, rest: Seq<u8>)
    requires
        b.wf(),
        b.num_rows <= usize::MAX,
        encodable(schema_types(b.schema), b.columns),
    ensures
        parse_batch(batch_bytes(b) + rest, b.schema) == Some((b, batch_bytes(b).len() as int)),
{
    let types = schema_types(b.schema);
    let n = b.num_rows as int;
    let rows = encode_rows(b.columns, b.num_rows);
    let m = rows.len() as int;
    let s = batch_bytes(b) + rest;
    let bounds = boundary_bytes(b.columns, b.num_rows + 1);
    assert(column_rows(b.columns) == b.num_rows);
    lemma_powers();
    assert(n <= usize::MAX <= u64::MAX);
    lemma_little_endian(n, 8);
    lemma_little_endian(m, 8);
    assert forall|j: int| 0 <= j < b.num_rows + 1 implies (#[trigger] encode_rows(
        b.columns,
        j as nat,
    )).len() <= u32::MAX by {
        lemma_encode_rows_prefix(b.columns, j as nat, b.num_rows);
    }
    lemma_boundaries(b.columns, b.num_rows + 1, 0);
    assert(s.subrange(0, 8) =~= little_endian(n, 8));
    assert(s.subrange(8, 16) =~= little_endian(m, 8));
    assert(number_at(s, 0, 8) == n);
    assert(number_at(s, 8, 8) == m);
    assert forall|k: int| 0 <= k <= n implies #[trigger] boundary_at(s, k) == encode_rows(
        b.columns,
        k as nat,
    ).len() by {
        lemma_boundaries(b.columns, b.num_rows + 1, k);
        let at = 16 + m + 4 * k;
        assert(s.subrange(at, at + 4) =~= bounds.subrange(4 * k, 4 * k + 4));
        assert(encode_rows(b.columns, k as nat).len() <= u32::MAX);
        lemma_little_endian(encode_rows(b.columns, k as nat).len() as int, 4);
    }
    assert forall|k: int| 0 <= k < n implies {
        &&& #[trigger] row_readable(s, types, k)
        &&& decode_row(row_bytes(s, k), types) == Some(row_of(b.columns, k))
    } by {
        lemma_encode_rows_prefix(b.columns, k as nat, b.num_rows);
        lemma_encode_rows_prefix(b.columns, (k + 1) as nat, b.num_rows);
        let from = encode_rows(b.columns, k as nat).len() as int;
        let upto = encode_rows(b.columns, (k + 1) as nat).len() as int;
        assert(boundary_at(s, k) == from);
        assert(boundary_at(s, k + 1) == upto);
        assert(rows.take(upto) == encode_rows(b.columns, (k + 1) as nat));
        assert(row_bytes(s, k) =~= rows.subrange(from, upto));
        assert(rows.subrange(from, upto) =~= rows.take(upto).skip(from));
        assert(encode_rows(b.columns, (k + 1) as nat).skip(from) =~= encode_row(
            row_of(b.columns, k),
        ));
        lemma_rows_fit(types, b.columns, k);
        decode_inverts_encode(row_of(b.columns, k), types);
    }
    let columns = Seq::new(types.len(), |c: int| column_at(s, types, c));
    assert forall|c: int| 0 <= c < columns.len() implies #[trigger] columns[c] == b.columns[c] by {
        assert(b.columns[c].values.len() == b.num_rows);
        assert forall|k: int| 0 <= k < n implies columns[c].values[k] == b.columns[c].values[k] by {
            assert(row_readable(s, types, k));
            assert(row_of(b.columns, k)[c] == b.columns[c].values[k]);
        }
        assert(columns[c].values =~= b.columns[c].values);
    }
    assert(columns =~= b.columns);
    assert(s.len() >= batch_size(n, m));
    assert(batch_bytes(b).len() == batch_size(n, m));
}

// ---------------------------------------------------------------------------
// Writing and reading

/// Appends a number, least significant byte first.
fn push_little_endian(out: &mut Vec<u8>, n: u64, width: usize)
    ensures
        final(out)@ == old(out)@ + little_endian(n as int, width as nat),
{
    let ghost before = out@;
    let mut rest: u64 = n;
    let mut i: usize = 0;
    assert(little_endian(n as int, width as nat) =~= seq![] + little_endian(
        n as int,
        width as nat,
    ));
    assert(before + little_endian(n as int, width as nat) =~= out@ + little_endian(
        rest as int,
        (width - i) as nat,
    ));
    while i < width
        invariant
            i <= width,
            before + little_endian(n as int, width as nat) == out@ + little_endian(
                rest as int,
                (width - i) as nat,
            ),
        decreases width - i,
    {
        let ghost was = out@;
        let digit: u8 = (rest % 256) as u8;
        out.push(digit);
        proof {
            assert(was + little_endian(rest as int, (width - i) as nat) =~= was.push(digit)
                + little_endian(rest as int / 256, (width - i - 1) as nat));
        }
        rest = rest / 256;
        i = i + 1;
    }
    assert(out@ + little_endian(rest as int, 0) =~= out@);
}

/// The number of `width` bytes at `at`.
fn read_little_endian(bytes: &Vec<u8>, at: usize, width: usize) -> (r: u64)
    requires
        at + width <= bytes@.len(),
        width <= 8,
    ensures
        r == number_at(bytes@, at as int, width as int),
{
    let ghost s = bytes@.subrange(at as int, at + width);
    let size: usize = bytes.len();
    let mut v: u64 = 0;
    let mut i: usize = width;
    assert(s.skip(width as int) =~= seq![]);
    while i > 0
        invariant
            i <= width <= 8,
            size == bytes@.len(),
            at + width <= size,
            s == bytes@.subrange(at as int, at + width),
            v == little_endian_value(s.skip(i as int)),
        decreases i,
    {
        proof {
            let tail = s.skip(i - 1);
            assert(tail.skip(1) =~= s.skip(i as int));
            assert(tail[0] == bytes@[at + i - 1]);
            lemma_value_bound(tail);
            lemma_powers();
            lemma_power_monotone(tail.len(), 8);
        }
        v = v * 256 + bytes[at + i - 1] as u64;
        i = i - 1;
    }
    assert(s.skip(0) =~= s);
    v
}

proof fn lemma_power_monotone(m: nat, n: nat)
    requires
        m <= n,
    ensures
        1 <= power_256(m) <= power_256(n),
    decreases n,
{
    if m < n {
        lemma_power_monotone(m, (n - 1) as nat);
    } else if n > 0 {
        lemma_power_monotone((m - 1) as nat, (n - 1) as nat);
    }
}

fn types_of(schema: &SchemaRef) -> (r: Vec<DataType>)
    ensures
        r@ == schema_types(schema@),
{
    let fields = schema.fields();
    let mut types: Vec<DataType> = Vec::new();
    let mut i: usize = 0;
    while i < fields.len()
        invariant
            i <= fields@.len(),
            fields@.len() == schema@.len(),
            forall|k: int| 0 <= k < fields@.len() ==> (#[trigger] fields@[k])@ == schema@[k],
            types@ == schema_types(schema@).take(i as int),
        decreases fields@.len() - i,
    {
        assert(fields@[i as int]@ == schema@[i as int]);
        types.push(fields[i].data_type);
        assert(schema_types(schema@).take(i + 1) =~= schema_types(schema@).take(i as int).push(
            schema@[i as int].data_type,
        ));
        i = i + 1;
    }
    assert(types@ =~= schema_types(schema@));
    types
}

/// Appends a batch to `w`.
///
/// # Errors
/// An internal error, with nothing appended, when the rows cannot be encoded.
pub fn write_batch(w: &mut Vec<u8>, batch: &ColumnarBatch) -> (r: Result<(), BasaltError>)
    ensures
        match r {
            Ok(_) => {
                &&& encodable(schema_types(batch@.schema), batch@.columns)
                &&& final(w)@ == old(w)@ + batch_bytes(batch@)
            },
            Err(e) => e@ == ErrorKind::Internal && !encodable(
                schema_types(batch@.schema),
                batch@.columns,
            ) && final(w)@ == old(w)@,
        },
{
    let ghost before = w@;
    let encoder = GroupKeyEncoder::new(types_of(batch.schema()));
    let width: usize = batch.num_columns();
    let mut columns: Vec<ArrayRef> = Vec::new();
    let mut c: usize = 0;
    assert(array_views(columns@) =~= batch@.columns.take(0));
    while c < width
        invariant
            c <= width,
            width == batch@.columns.len(),
            array_views(columns@) == batch@.columns.take(c as int),
        decreases width - c,
    {
        match batch.column(c) {
            Some(a) => {
                let ghost was = array_views(columns@);
                columns.push(crate::array::share(a));
                proof {
                    assert(array_views(columns@) =~= was.push(a@));
                    assert(batch@.columns.take(c + 1) =~= batch@.columns.take(c as int).push(a@));
                }
            },
            None => {
                assert(false);
            },
        }
        c = c + 1;
    }
    assert(batch@.columns.take(c as int) =~= batch@.columns);
    let mut encoded: Vec<u8> = Vec::new();
    let mut offsets: Vec<u32> = Vec::new();
    let n: usize = batch.num_rows();
    match encoder.encode(&columns, &mut encoded, &mut offsets) {
        Ok(_) => {},
        Err(e) => {
            return Err(e);
        },
    }
    let ghost rows = encode_rows(batch@.columns, n as nat);
    proof {
        assert(column_rows(batch@.columns) == n);
        assert(encoded@ =~= rows);
    }
    push_little_endian(w, n as u64, 8);
    push_little_endian(w, encoded.len() as u64, 8);
    let ghost head = w@;
    let mut i: usize = 0;
    assert(head + encoded@.take(0) =~= head);
    while i < encoded.len()
        invariant
            i <= encoded@.len(),
            w@ == head + encoded@.take(i as int),
        decreases encoded@.len() - i,
    {
        w.push(encoded[i]);
        assert(head + encoded@.take(i + 1) =~= (head + encoded@.take(i as int)).push(
            encoded@[i as int],
        ));
        i = i + 1;
    }
    assert(encoded@.take(i as int) =~= encoded@);
    let ghost body = w@;
    let mut k: usize = 0;
    assert(body + boundary_bytes(batch@.columns, 0) =~= body);
    while k < offsets.len()
        invariant
            k <= offsets@.len(),
            n == batch@.num_rows,
            offsets@ == Seq::new(
                (n + 1) as nat,
                |k: int| encode_rows(batch@.columns, k as nat).len() as u32,
            ),
            encode_rows(batch@.columns, n as nat).len() <= u32::MAX,
            w@ == body + boundary_bytes(batch@.columns, k as nat),
        decreases offsets@.len() - k,
    {
        proof {
            lemma_encode_rows_prefix(batch@.columns, k as nat, n as nat);
        }
        push_little_endian(w, offsets[k] as u64, 4);
        assert(w@ =~= body + boundary_bytes(batch@.columns, (k + 1) as nat));
        k = k + 1;
    }
    proof {
        let tail = boundary_bytes(batch@.columns, batch@.num_rows + 1);
        assert(w@ == body + tail);
        assert(w@ =~= before + batch_bytes(batch@));
    }
    Ok(())
}

/// Bytes, read from the front.
#[derive(Debug)]
pub struct SpillReader {
    bytes: Vec<u8>,
    position: usize,
}

impl SpillReader {
    /// The bytes that are not read yet.
    pub closed spec fn view(&self) -> Seq<u8> {
        self.bytes@.skip(self.position as int)
    }

    #[verifier::type_invariant]
    spec fn inv(self) -> bool {
        self.position <= self.bytes@.len()
    }

    pub fn new(bytes: Vec<u8>) -> (r: SpillReader)
        ensures
            r@ == bytes@,
    {
        let r = SpillReader { bytes, position: 0 };
        assert(r@ =~= bytes@);
        r
    }
}

/// The number of bytes that follow the sixteen bytes at the front of a batch;
/// `None` when there are fewer than sixteen, or no machine could hold as many.
pub fn body_len(header: &Vec<u8>) -> (r: Option<usize>)
    ensures
        match r {
            Some(n) => header@.len() >= 16 && n == batch_size(
                number_at(header@, 0, 8),
                number_at(header@, 8, 8),
            ) - 16,
            None => header@.len() < 16 || batch_size(
                number_at(header@, 0, 8),
                number_at(header@, 8, 8),
            ) - 16 > usize::MAX,
        },
{
    if header.len() < 16 {
        return None;
    }
    let n: u64 = read_little_endian(header, 0, 8);
    let m: u64 = read_little_endian(header, 8, 8);
    let total: u128 = m as u128 + 4 * (n as u128 + 1);
    if total > usize::MAX as u128 {
        None
    } else {
        Some(total as usize)
    }
}

/// Reads the next batch. What follows it can be read next.
///
/// # Errors
/// An internal error, with nothing read, when the bytes are cut short or hold
/// no batch of the schema's types.
#[verifier::rlimit(40)]
pub fn read_batch(r: &mut SpillReader, schema: SchemaRef) -> (out: Result<ColumnarBatch, BasaltError>)
    ensures
        match out {
            Ok(b) => {
                &&& parse_batch(old(r)@, schema@) is Some
                &&& b@ == (parse_batch(old(r)@, schema@)->Some_0).0
                &&& final(r)@ == old(r)@.skip((parse_batch(old(r)@, schema@)->Some_0).1)
            },
            Err(e) => e@ == ErrorKind::Internal && parse_batch(old(r)@, schema@) is None && final(r)@
                == old(r)@,
        },
{
    proof {
        use_type_invariant(&*r);
    }
    let ghost s = r@;
    let at: usize = r.position;
    let left: usize = r.bytes.len() - at;
    if left < 16 {
        return Err(BasaltError::internal("a spilled batch is cut short"));
    }
    let n64: u64 = read_little_endian(&r.bytes, at, 8);
    let m64: u64 = read_little_endian(&r.bytes, at + 8, 8);
    proof {
        assert(r.bytes@.subrange(at as int, at + 8) =~= s.subrange(0, 8));
        assert(r.bytes@.subrange(at + 8, at + 16) =~= s.subrange(8, 16));
    }
    let total: u128 = 16 + m64 as u128 + 4 * (n64 as u128 + 1);
    if total > left as u128 {
        return Err(BasaltError::internal("a spilled batch is cut short"));
    }
    let n: usize = n64 as usize;
    let m: usize = m64 as usize;
    let types = types_of(&schema);
    let encoder = GroupKeyEncoder::new(types_of(&schema));
    let width: usize = types.len();
    let mut columns: Vec<Array> = Vec::new();
    let mut c: usize = 0;
    while c < width
        invariant
            c <= width,
            width == types@.len(),
            columns@.len() == c,
            forall|k: int|
                0 <= k < c ==> (#[trigger] columns@[k])@.data_type == types@[k]
                    && columns@[k]@.values.len() == 0,
        decreases width - c,
    {
        columns.push(Array::empty(types[c]));
        c = c + 1;
    }
    let size: usize = r.bytes.len();
    let base: usize = at + 16;
    let bounds: usize = base + m;
    let mut row: usize = 0;
    while row < n
        invariant
            row <= n,
            s == r.bytes@.skip(at as int),
            size == r.bytes@.len(),
            at + 16 + m + 4 * (n + 1) <= size,
            base == at + 16,
            bounds == base + m,
            n == number_at(s, 0, 8),
            m == number_at(s, 8, 8),
            width == types@.len(),
            types@ == schema_types(schema@),
            encoder@ == types@,
            columns@.len() == width,
            *r == *old(r),
            s == old(r)@,
            forall|c: int|
                0 <= c < width ==> {
                    &&& (#[trigger] columns@[c])@.data_type == types@[c]
                    &&& columns@[c]@.values.len() == row
                    &&& forall|k: int|
                        0 <= k < row ==> columns@[c]@.values[k] == #[trigger] cell_at(
                            s,
                            types@,
                            k,
                            c,
                        )
                },
            forall|k: int| 0 <= k < row ==> #[trigger] row_readable(s, types@, k),
            s.len() >= 16,
        decreases n - row,
    {
        let from: u64 = read_little_endian(&r.bytes, bounds + 4 * row, 4);
        let upto: u64 = read_little_endian(&r.bytes, bounds + 4 * (row + 1), 4);
        proof {
            let a = 16 + m + 4 * row;
            assert(r.bytes@.subrange(bounds + 4 * row, bounds + 4 * row + 4) =~= s.subrange(
                a,
                a + 4,
            ));
            let b = 16 + m + 4 * (row + 1);
            assert(r.bytes@.subrange(bounds + 4 * (row + 1), bounds + 4 * (row + 1) + 4)
                =~= s.subrange(b, b + 4));
            assert(from == boundary_at(s, row as int));
            assert(upto == boundary_at(s, row + 1));
        }
        if from > upto || upto > m as u64 {
            assert(!row_readable(s, types@, row as int));
            return Err(BasaltError::internal("a spilled batch has a bad boundary"));
        }
        let key = vstd::slice::slice_subrange(
            r.bytes.as_slice(),
            base + from as usize,
            base + upto as usize,
        );
        assert(key@ =~= row_bytes(s, row as int));
        match encoder.decode(key) {
            Err(e) => {
                assert(!row_readable(s, types@, row as int));
                return Err(e);
            },
            Ok(values) => {
                let ghost want = decode_row(row_bytes(s, row as int), types@)->0;
                assert(row_readable(s, types@, row as int));
                assert(want == Seq::new(values@.len(), |i: int| values@[i]@));
                let mut c: usize = 0;
                while c < width
                    invariant
                        c <= width,
                        width == types@.len(),
                        columns@.len() == width,
                        values@.len() == width,
                        row < n,
                        want == Seq::new(values@.len(), |i: int| values@[i]@),
                        want == decode_row(row_bytes(s, row as int), types@)->0,
                        forall|i: int|
                            0 <= i < width ==> (#[trigger] values@[i]).spec_data_type()
                                == types@[i],
                        forall|q: int|
                            0 <= q < c ==> {
                                &&& (#[trigger] columns@[q])@.data_type == types@[q]
                                &&& columns@[q]@.values.len() == row + 1
                                &&& forall|k: int|
                                    0 <= k < row + 1 ==> columns@[q]@.values[k]
                                        == #[trigger] cell_at(s, types@, k, q)
                            },
                        forall|q: int|
                            c <= q < width ==> {
                                &&& (#[trigger] columns@[q])@.data_type == types@[q]
                                &&& columns@[q]@.values.len() == row
                                &&& forall|k: int|
                                    0 <= k < row ==> columns@[q]@.values[k] == #[trigger] cell_at(
                                        s,
                                        types@,
                                        k,
                                        q,
                                    )
                            },
                    decreases width - c,
                {
                    let ghost before = columns@;
                    let v = values[c].to_value();
                    assert(v@ == cell_at(s, types@, row as int, c as int)) by {
                        assert(want[c as int] == values@[c as int]@);
                    }
                    let mut column = Array::empty(types[c]);
                    std::mem::swap(&mut column, &mut columns[c]);
                    assert(column@ == before[c as int]@);
                    column.push(v);
                    columns.set(c, column);
                    proof {
                        assert forall|q: int| 0 <= q < width && q != c implies columns@[q]
                            == before[q] by {}
                        let now = columns@[c as int]@.values;
                        assert(now == before[c as int]@.values.push(v@));
                        assert forall|k: int| 0 <= k < row + 1 implies now[k] == #[trigger] cell_at(
                            s,
                            types@,
                            k,
                            c as int,
                        ) by {
                            if k < row {
                                assert(now[k] == before[c as int]@.values[k]);
                            }
                        }
                    }
                    c = c + 1;
                }
            },
        }
        row = row + 1;
    }
    let ghost want = Seq::new(types@.len(), |c: int| column_at(s, types@, c));
    let ghost read = columns@;
    let mut arrays: Vec<ArrayRef> = Vec::new();
    let mut list: Vec<ArrayRef> = Vec::new();
    while columns.len() > 0
        invariant
            columns@.len() + list@.len() == read.len(),
            columns@ == read.take(columns@.len() as int),
            forall|k: int|
                0 <= k < list@.len() ==> (#[trigger] list@[k])@ == read[read.len() - 1 - k]@,
        decreases columns@.len(),
    {
        match columns.pop() {
            Some(a) => {
                list.push(Arc::new(a));
            },
            None => {},
        }
    }
    while list.len() > 0
        invariant
            arrays@.len() + list@.len() == read.len(),
            forall|k: int|
                0 <= k < list@.len() ==> (#[trigger] list@[k])@ == read[read.len() - 1 - k]@,
            forall|k: int| 0 <= k < arrays@.len() ==> (#[trigger] arrays@[k])@ == read[k]@,
        decreases list@.len(),
    {
        match list.pop() {
            Some(a) => {
                arrays.push(a);
            },
            None => {},
        }
    }
    proof {
        assert forall|c: int| 0 <= c < arrays@.len() implies (#[trigger] arrays@[c])@ == want[c] by {
            assert(arrays@[c]@ == read[c]@);
            assert forall|k: int| 0 <= k < n implies read[c]@.values[k] == want[c].values[k] by {
                assert(read[c]@.values[k] == cell_at(s, types@, k, c));
            }
            assert(read[c]@.values =~= want[c].values);
        }
        assert(array_views(arrays@) =~= want);
        assert forall|c: int| 0 <= c < want.len() implies {
            &&& (#[trigger] want[c]).values.len() == crate::batch::first_len(want)
            &&& want[c].data_type == schema@[c].data_type
            &&& want[c].wf()
        } by {
            arrays@[c].lemma_wf();
        }
    }
    match ColumnarBatch::try_new(schema, arrays) {
        Ok(b) => {
            r.position = at + total as usize;
            assert(r@ =~= s.skip(total as int));
            Ok(b)
        },
        Err(e) => Err(e),
    }
}

} // verus!
