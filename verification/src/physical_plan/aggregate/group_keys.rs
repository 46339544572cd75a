//! Encodes rows of values as byte keys.
//!
//! A cell is a flag byte (zero for null) and, for a value, its bytes: numbers
//! big-endian in an order-preserving form, booleans as one byte, text as its
//! length in four bytes and its UTF-8. Two rows of the same types have the same
//! key exactly when they hold the same values, and numeric keys order as the
//! numbers do. Text keys do not order as the text does.

use vstd::prelude::*;
use vstd::utf8::{decode_utf8, encode_utf8, valid_utf8};

use crate::array::{Array, ArrayRef, ArrayView};
use crate::batch::array_views;
use crate::error::{BasaltError, ErrorKind};
use crate::float64::{Float64, SIGN};
use crate::scalar::ScalarValue;
use crate::types::data_type::DataType;
use crate::types::value::{Value, ValueView};

verus! {

/// The last `width` base-256 digits of `n`, most significant first.
pub open spec fn big_endian(n: int, width: nat) -> Seq<u8>
    decreases width,
{
    if width == 0 {
        seq![]
    } else {
        big_endian(n / 256, (width - 1) as nat).push((n % 256) as u8)
    }
}

/// The number that base-256 digits stand for, most significant first.
pub open spec fn big_endian_value(s: Seq<u8>) -> int
    decreases s.len(),
{
    if s.len() == 0 {
        0
    } else {
        big_endian_value(s.drop_last()) * 256 + s.last()
    }
}

pub open spec fn power_256(width: nat) -> int
    decreases width,
{
    if width == 0 {
        1
    } else {
        power_256((width - 1) as nat) * 256
    }
}

/// An integer shifted to be nonnegative, which keeps its order.
pub open spec fn ordered_int(n: i64) -> int {
    n + 0x8000_0000_0000_0000
}

/// The bits of a double rearranged so that they order as the doubles do,
/// negative zero before zero.
pub open spec fn ordered_float(x: Float64) -> int {
    if x.bits >= SIGN {
        u64::MAX - x.bits
    } else {
        x.bits + SIGN
    }
}

/// The bytes of one cell.
pub open spec fn encode_cell(v: ValueView) -> Seq<u8> {
    match v {
        ValueView::Null => seq![0u8],
        ValueView::Int64(n) => seq![1u8] + big_endian(ordered_int(n), 8),
        ValueView::Float64(x) => seq![1u8] + big_endian(ordered_float(x), 8),
        ValueView::Boolean(b) => seq![1u8, if b { 1u8 } else { 0u8 }],
        ValueView::Utf8(s) => seq![1u8] + big_endian(encode_utf8(s).len() as int, 4) + encode_utf8(s),
    }
}

/// The key of a row: the bytes of its cells, left to right.
pub open spec fn encode_row(row: Seq<ValueView>) -> Seq<u8>
    decreases row.len(),
{
    if row.len() == 0 {
        seq![]
    } else {
        encode_row(row.drop_last()) + encode_cell(row.last())
    }
}

/// Row `i` of a list of columns.
pub open spec fn row_of(columns: Seq<ArrayView>, i: int) -> Seq<ValueView> {
    Seq::new(columns.len(), |c: int| columns[c].values[i])
}

/// The keys of the first `n` rows, one after the other.
pub open spec fn encode_rows(columns: Seq<ArrayView>, n: nat) -> Seq<u8>
    decreases n,
{
    if n == 0 {
        seq![]
    } else {
        encode_rows(columns, (n - 1) as nat) + encode_row(row_of(columns, n - 1))
    }
}

/// The number of rows of a list of columns.
pub open spec fn column_rows(columns: Seq<ArrayView>) -> nat {
    if columns.len() == 0 {
        0
    } else {
        columns[0].values.len()
    }
}

/// Whether columns are equally long and of the given types.
pub open spec fn keys_fit(types: Seq<DataType>, columns: Seq<ArrayView>) -> bool {
    &&& columns.len() == types.len()
    &&& forall|c: int|
        0 <= c < columns.len() ==> {
            &&& (#[trigger] columns[c]).values.len() == column_rows(columns)
            &&& columns[c].data_type == types[c]
        }
}

/// One cell read from the front of a key, and what is left of it.
pub open spec fn decode_cell(key: Seq<u8>, t: DataType) -> Option<(ValueView, Seq<u8>)> {
    if key.len() == 0 {
        None
    } else if key[0] == 0 {
        Some((ValueView::Null, key.skip(1)))
    } else {
        let rest = key.skip(1);
        match t {
            DataType::Int64 => if rest.len() < 8 {
                None
            } else {
                Some(
                    (
                        ValueView::Int64(
                            (big_endian_value(rest.take(8)) - 0x8000_0000_0000_0000) as i64,
                        ),
                        rest.skip(8),
                    ),
                )
            },
            DataType::Float64 => if rest.len() < 8 {
                None
            } else {
                Some((ValueView::Float64(unordered_float(big_endian_value(rest.take(8)))), rest.skip(8)))
            },
            DataType::Boolean => if rest.len() < 1 {
                None
            } else {
                Some((ValueView::Boolean(rest[0] != 0), rest.skip(1)))
            },
            DataType::Utf8 => if rest.len() < 4 {
                None
            } else {
                let n = big_endian_value(rest.take(4));
                let tail = rest.skip(4);
                if tail.len() < n || !valid_utf8(tail.take(n)) {
                    None
                } else {
                    Some((ValueView::Utf8(decode_utf8(tail.take(n))), tail.skip(n)))
                }
            },
        }
    }
}

/// The double whose rearranged bits are `n`.
pub open spec fn unordered_float(n: int) -> Float64 {
    if n >= SIGN {
        Float64 { bits: (n - SIGN) as u64 }
    } else {
        Float64 { bits: (u64::MAX - n) as u64 }
    }
}

/// The row that a key holds, with nothing behind it.
pub open spec fn decode_row(key: Seq<u8>, types: Seq<DataType>) -> Option<Seq<ValueView>>
    decreases types.len(),
{
    if types.len() == 0 {
        if key.len() == 0 {
            Some(seq![])
        } else {
            None
        }
    } else {
        match decode_cell(key, types[0]) {
            None => None,
            Some((v, rest)) => match decode_row(rest, types.skip(1)) {
                None => None,
                Some(row) => Some(seq![v] + row),
            },
        }
    }
}

/// Whether a row has one value per type, each of its type or null, and text
/// short enough for a length of four bytes.
pub open spec fn row_fits(row: Seq<ValueView>, types: Seq<DataType>) -> bool {
    &&& row.len() == types.len()
    &&& forall|i: int|
        0 <= i < row.len() ==> (#[trigger] row[i]).fits(types[i]) && (row[i] matches ValueView::Utf8(s)
            ==> encode_utf8(s).len() <= u32::MAX)
}

proof fn lemma_big_endian(n: int, width: nat)
    requires
        0 <= n < power_256(width),
    ensures
        big_endian(n, width).len() == width,
        big_endian_value(big_endian(n, width)) == n,
    decreases width,
{
    if width > 0 {
        let p = power_256((width - 1) as nat);
        assert(0 <= n / 256 < p) by (nonlinear_arith)
            requires
                0 <= n < p * 256,
        ;
        lemma_big_endian(n / 256, (width - 1) as nat);
        let s = big_endian(n, width);
        assert(s.drop_last() =~= big_endian(n / 256, (width - 1) as nat));
    }
}

proof fn lemma_big_endian_len(n: int, width: nat)
    ensures
        big_endian(n, width).len() == width,
    decreases width,
{
    if width > 0 {
        lemma_big_endian_len(n / 256, (width - 1) as nat);
    }
}

proof fn lemma_powers()
    ensures
        power_256(4) == 0x1_0000_0000,
        power_256(8) == 0x1_0000_0000_0000_0000,
{
    reveal_with_fuel(power_256, 9);
}

/// Reading a cell back gives the value that was written, whatever follows.
proof fn lemma_cell_round_trip(v: ValueView, t: DataType, rest: Seq<u8>)
    requires
        v.fits(t),
        v matches ValueView::Utf8(s) ==> encode_utf8(s).len() <= u32::MAX,
    ensures
        decode_cell(encode_cell(v) + rest, t) == Some((v, rest)),
{
    lemma_powers();
    let key = encode_cell(v) + rest;
    match v {
        ValueView::Null => {
            assert(key.skip(1) =~= rest);
        },
        ValueView::Int64(n) => {
            let body = big_endian(ordered_int(n), 8);
            lemma_big_endian(ordered_int(n), 8);
            assert(key.skip(1) =~= body + rest);
            assert((body + rest).take(8) =~= body);
            assert((body + rest).skip(8) =~= rest);
        },
        ValueView::Float64(x) => {
            let body = big_endian(ordered_float(x), 8);
            lemma_big_endian(ordered_float(x), 8);
            assert(key.skip(1) =~= body + rest);
            assert((body + rest).take(8) =~= body);
            assert((body + rest).skip(8) =~= rest);
        },
        ValueView::Boolean(b) => {
            assert(key.skip(1).skip(1) =~= rest);
        },
        ValueView::Utf8(s) => {
            let bytes = encode_utf8(s);
            let body = big_endian(bytes.len() as int, 4);
            lemma_big_endian(bytes.len() as int, 4);
            assert(key.skip(1) =~= body + bytes + rest);
            assert((body + bytes + rest).take(4) =~= body);
            assert((body + bytes + rest).skip(4) =~= bytes + rest);
            assert((bytes + rest).take(bytes.len() as int) =~= bytes);
            assert((bytes + rest).skip(bytes.len() as int) =~= rest);
            vstd::utf8::encode_utf8_valid_utf8(s);
            vstd::utf8::encode_utf8_decode_utf8(s);
        },
    }
}

/// A row's key starts with its first cell.
proof fn lemma_encode_row_front(row: Seq<ValueView>)
    requires
        row.len() > 0,
    ensures
        encode_row(row) == encode_cell(row[0]) + encode_row(row.skip(1)),
    decreases row.len(),
{
    if row.len() == 1 {
        assert(row.drop_last() =~= seq![]);
        assert(row.skip(1) =~= seq![]);
        assert(encode_row(row.drop_last()) =~= seq![]);
        assert(encode_row(row) =~= encode_cell(row[0]) + encode_row(row.skip(1)));
    } else {
        lemma_encode_row_front(row.drop_last());
        assert(row.skip(1).drop_last() =~= row.drop_last().skip(1));
        assert(encode_row(row) =~= encode_cell(row[0]) + encode_row(row.skip(1)));
    }
}

/// Decoding the key of a row gives the row back.
pub proof fn decode_inverts_encode(row: Seq<ValueView>, types: Seq<DataType>)
    requires
        row_fits(row, types),
    ensures
        decode_row(encode_row(row), types) == Some(row),
    decreases row.len(),
{
    if row.len() == 0 {
        assert(row =~= seq![]);
    } else {
        lemma_encode_row_front(row);
        let tail = encode_row(row.skip(1));
        assert(row[0].fits(types[0]));
        lemma_cell_round_trip(row[0], types[0], tail);
        assert forall|i: int| 0 <= i < row.skip(1).len() implies (#[trigger] row.skip(1)[i]).fits(
            types.skip(1)[i],
        ) && (row.skip(1)[i] matches ValueView::Utf8(s) ==> encode_utf8(s).len() <= u32::MAX) by {
            assert(row[i + 1].fits(types[i + 1]));
        }
        decode_inverts_encode(row.skip(1), types.skip(1));
        assert(seq![row[0]] + row.skip(1) =~= row);
    }
}

/// Rows of the same types have the same key exactly when they are the same.
pub proof fn keys_identify_rows(a: Seq<ValueView>, b: Seq<ValueView>, types: Seq<DataType>)
    requires
        row_fits(a, types),
        row_fits(b, types),
    ensures
        encode_row(a) == encode_row(b) <==> a == b,
{
    decode_inverts_encode(a, types);
    decode_inverts_encode(b, types);
}

/// Lexicographic order on byte strings of one length.
pub open spec fn bytes_before(a: Seq<u8>, b: Seq<u8>) -> bool {
    exists|k: int| #![trigger a[k]]
        0 <= k < a.len() && k < b.len() && a[k] < b[k] && a.take(k) == b.take(k)
}

proof fn lemma_big_endian_order(n: int, m: int, width: nat)
    requires
        0 <= n < m < power_256(width),
    ensures
        bytes_before(big_endian(n, width), big_endian(m, width)),
    decreases width,
{
    if width > 0 {
        let p = power_256((width - 1) as nat);
        let a = big_endian(n, width);
        let b = big_endian(m, width);
        let pa = big_endian(n / 256, (width - 1) as nat);
        let pb = big_endian(m / 256, (width - 1) as nat);
        lemma_big_endian_len(n / 256, (width - 1) as nat);
        lemma_big_endian_len(m / 256, (width - 1) as nat);
        assert(0 <= n / 256 <= m / 256 < p) by (nonlinear_arith)
            requires
                0 <= n < m < p * 256,
        ;
        if n / 256 < m / 256 {
            lemma_big_endian_order(n / 256, m / 256, (width - 1) as nat);
            let k = choose|k: int| #![trigger pa[k]]
                0 <= k < pa.len() && k < pb.len() && pa[k] < pb[k] && pa.take(k) == pb.take(k);
            assert(a.take(k) =~= pa.take(k));
            assert(b.take(k) =~= pb.take(k));
            assert(a[k] < b[k]);
        } else {
            let k = width - 1;
            assert(a.take(k) =~= pa);
            assert(b.take(k) =~= pb);
            assert(a[k] < b[k]);
        }
    }
}

/// Keys of integers order as the integers do.
pub proof fn int_keys_preserve_order(a: i64, b: i64)
    requires
        a < b,
    ensures
        bytes_before(encode_row(seq![ValueView::Int64(a)]), encode_row(seq![ValueView::Int64(b)])),
{
    lemma_powers();
    lemma_big_endian_order(ordered_int(a), ordered_int(b), 8);
    lemma_single_cell_order(ValueView::Int64(a), ValueView::Int64(b), big_endian(ordered_int(a), 8), big_endian(ordered_int(b), 8));
}

/// Keys of doubles order as the doubles do, and negative zero comes before
/// zero.
pub proof fn float_keys_preserve_order(a: Float64, b: Float64)
    requires
        a.num_lt(b) || (a.bits == SIGN && b.bits == 0),
    ensures
        bytes_before(encode_row(seq![ValueView::Float64(a)]), encode_row(seq![ValueView::Float64(b)])),
{
    lemma_powers();
    lemma_big_endian_order(ordered_float(a), ordered_float(b), 8);
    lemma_single_cell_order(ValueView::Float64(a), ValueView::Float64(b), big_endian(ordered_float(a), 8), big_endian(ordered_float(b), 8));
}

proof fn lemma_single_cell_order(a: ValueView, b: ValueView, x: Seq<u8>, y: Seq<u8>)
    requires
        encode_cell(a) == seq![1u8] + x,
        encode_cell(b) == seq![1u8] + y,
        bytes_before(x, y),
    ensures
        bytes_before(encode_row(seq![a]), encode_row(seq![b])),
{
    assert(seq![a].drop_last() =~= seq![]);
    assert(seq![b].drop_last() =~= seq![]);
    let ka = encode_row(seq![a]);
    let kb = encode_row(seq![b]);
    assert(encode_row(seq![a].drop_last()) =~= seq![]);
    assert(encode_row(seq![b].drop_last()) =~= seq![]);
    assert(ka =~= seq![1u8] + x);
    assert(kb =~= seq![1u8] + y);
    let k = choose|k: int| #![trigger x[k]]
        0 <= k < x.len() && k < y.len() && x[k] < y[k] && x.take(k) == y.take(k);
    assert(ka[k + 1] == x[k]);
    assert(kb[k + 1] == y[k]);
    assert(ka.take(k + 1) =~= seq![1u8] + x.take(k));
    assert(kb.take(k + 1) =~= seq![1u8] + y.take(k));
}

// ---------------------------------------------------------------------------

/// Text from UTF-8: `std::str::from_utf8`.
///
/// The text comes back exactly when the bytes are valid UTF-8, and it is then
/// the text they encode.
#[verifier::external_body]
fn utf8_text(bytes: &[u8]) -> (r: Option<String>)
    ensures
        match r {
            Some(s) => valid_utf8(bytes@) && s@ == decode_utf8(bytes@),
            None => !valid_utf8(bytes@),
        },
{
    match std::str::from_utf8(bytes) {
        Ok(s) => Some(s.to_owned()),
        Err(_) => None,
    }
}

fn push_big_endian(out: &mut Vec<u8>, n: u64, width: usize)
    ensures
        final(out)@ == old(out)@ + big_endian(n as int, width as nat),
    decreases width,
{
    if width == 0 {
        assert(out@ =~= old(out)@ + big_endian(n as int, 0));
    } else {
        push_big_endian(out, n / 256, width - 1);
        out.push((n % 256) as u8);
        assert(out@ =~= old(out)@ + big_endian(n as int, width as nat));
    }
}

fn read_big_endian(key: &[u8], start: usize, width: usize) -> (r: u64)
    requires
        start + width <= key@.len(),
        width <= 8,
    ensures
        r == big_endian_value(key@.subrange(start as int, start + width)),
        r < power_256(width as nat),
{
    let n: usize = key.len();
    let mut acc: u64 = 0;
    let mut i: usize = 0;
    assert(key@.subrange(start as int, start as int) =~= seq![]);
    while i < width
        invariant
            i <= width,
            width <= 8,
            n == key@.len(),
            start + width <= n,
            acc == big_endian_value(key@.subrange(start as int, start + i)),
            acc < power_256(i as nat),
        decreases width - i,
    {
        proof {
            reveal_with_fuel(power_256, 9);
            let next = key@.subrange(start as int, start + i + 1);
            assert(next.drop_last() =~= key@.subrange(start as int, start + i));
            assert(next.last() == key@[start + i]);
        }
        acc = acc * 256 + key[start + i] as u64;
        i = i + 1;
    }
    acc
}

pub struct GroupKeyEncoder {
    types: Vec<DataType>,
}

impl GroupKeyEncoder {
    pub closed spec fn view(&self) -> Seq<DataType> {
        self.types@
    }

    pub fn new(types: Vec<DataType>) -> (r: GroupKeyEncoder)
        ensures
            r@ == types@,
    {
        GroupKeyEncoder { types }
    }

    /// Appends the key of each row to `out` and its boundaries to `offsets`:
    /// of the boundaries appended, row `i` lies between the `i`th and the next.
    ///
    /// # Errors
    /// An internal error when the arrays differ from the encoder's types or
    /// from one another in length, or when the keys grow past what an offset
    /// can hold; `out` and `offsets` may then have grown.
    pub fn encode(&self, arrays: &Vec<ArrayRef>, out: &mut Vec<u8>, offsets: &mut Vec<u32>) -> (r:
        Result<(), BasaltError>)
        ensures
            ({
                let columns = array_views(arrays@);
                let n = column_rows(columns);
                let base = old(out)@.len();
                match r {
                    Ok(_) => {
                        &&& keys_fit(self@, columns)
                        &&& base + encode_rows(columns, n).len() <= u32::MAX
                        &&& final(out)@ == old(out)@ + encode_rows(columns, n)
                        &&& final(offsets)@ == old(offsets)@ + Seq::new(
                            n + 1,
                            |k: int| (base + encode_rows(columns, k as nat).len()) as u32,
                        )
                    },
                    Err(e) => {
                        &&& e@ == ErrorKind::Internal
                        &&& !keys_fit(self@, columns) || base + encode_rows(columns, n).len()
                            > u32::MAX
                    },
                }
            }),
    {
        let ghost columns = array_views(arrays@);
        let ghost base = out@.len();
        let ghost out0 = out@;
        let ghost offsets0 = offsets@;
        if arrays.len() != self.types.len() {
            return Err(BasaltError::internal("group key arrays do not match the key types"));
        }
        let num_rows: usize = if arrays.len() == 0 {
            0
        } else {
            arrays[0].len()
        };
        let mut c: usize = 0;
        while c < arrays.len()
            invariant
                c <= arrays@.len(),
                columns == array_views(arrays@),
                arrays@.len() == self.types@.len(),
                num_rows == column_rows(columns),
                forall|k: int|
                    0 <= k < c ==> {
                        &&& (#[trigger] columns[k]).values.len() == column_rows(columns)
                        &&& columns[k].data_type == self.types@[k]
                    },
            decreases arrays@.len() - c,
        {
            assert(columns[c as int] == arrays@[c as int]@);
            if arrays[c].len() != num_rows {
                return Err(BasaltError::internal("group key arrays have differing lengths"));
            }
            if arrays[c].data_type() != self.types[c] {
                return Err(BasaltError::internal("group key arrays do not match the key types"));
            }
            c = c + 1;
        }
        if out.len() > u32::MAX as usize {
            return Err(BasaltError::internal("group keys too long"));
        }
        offsets.push(out.len() as u32);
        let mut row: usize = 0;
        proof {
            assert(out@ =~= out0 + encode_rows(columns, 0));
            assert(offsets@ =~= offsets0 + Seq::new(
                1,
                |k: int| (base + encode_rows(columns, k as nat).len()) as u32,
            ));
        }
        while row < num_rows
            invariant
                row <= num_rows,
                columns == array_views(arrays@),
                num_rows == column_rows(columns),
                keys_fit(self@, columns),
                base == out0.len(),
                out0 == old(out)@,
                out@ == out0 + encode_rows(columns, row as nat),
                out@.len() <= u32::MAX,
                offsets@ == offsets0 + Seq::new(
                    (row + 1) as nat,
                    |k: int| (base + encode_rows(columns, k as nat).len()) as u32,
                ),
            decreases num_rows - row,
        {
            let ghost before = out@;
            let mut col: usize = 0;
            assert(row_of(columns, row as int).take(0) =~= seq![]);
            assert(before + encode_row(seq![]) =~= before);
            while col < arrays.len()
                invariant
                    col <= arrays@.len(),
                    row < num_rows,
                    columns == array_views(arrays@),
                    num_rows == column_rows(columns),
                    keys_fit(self@, columns),
                    before == out0 + encode_rows(columns, row as nat),
                    base == out0.len(),
                    out0 == old(out)@,
                    out@ == before + encode_row(row_of(columns, row as int).take(col as int)),
                    out@.len() <= u32::MAX,
                decreases arrays@.len() - col,
            {
                let ghost full = row_of(columns, row as int);
                proof {
                    assert(columns[col as int] == arrays@[col as int]@);
                    assert(full.take(col + 1).drop_last() =~= full.take(col as int));
                    assert(full.take(col + 1).last() == arrays@[col as int]@.values[row as int]);
                }
                let fine = encode_value(&arrays[col], row, out);
                proof {
                    if !fine || out@.len() > u32::MAX {
                        lemma_encode_row_prefix(full, (col + 1) as nat);
                        lemma_encode_rows_prefix(columns, (row + 1) as nat, num_rows as nat);
                    }
                    assert(fine ==> out@ =~= before + encode_row(full.take(col + 1)));
                }
                if !fine {
                    return Err(BasaltError::internal("group key string too long"));
                }
                if out.len() > u32::MAX as usize {
                    return Err(BasaltError::internal("group keys too long"));
                }
                col = col + 1;
            }
            proof {
                assert(row_of(columns, row as int).take(col as int) =~= row_of(
                    columns,
                    row as int,
                ));
                assert(out@ =~= out0 + encode_rows(columns, (row + 1) as nat));
            }
            offsets.push(out.len() as u32);
            row = row + 1;
            assert(offsets@ =~= offsets0 + Seq::new(
                (row + 1) as nat,
                |k: int| (base + encode_rows(columns, k as nat).len()) as u32,
            ));
        }
        Ok(())
    }

    /// The row that a key holds.
    ///
    /// # Errors
    /// An internal error when the key is shorter or longer than the types imply,
    /// or text in it is not valid UTF-8.
    pub fn decode(&self, key: &[u8]) -> (r: Result<Vec<ScalarValue>, BasaltError>)
        ensures
            match r {
                Ok(values) => {
                    &&& values@.len() == self@.len()
                    &&& decode_row(key@, self@) == Some(Seq::new(values@.len(), |i: int| values@[i]@))
                    &&& forall|i: int|
                        0 <= i < values@.len() ==> (#[trigger] values@[i]).spec_data_type() == self@[i]
                },
                Err(e) => e@ == ErrorKind::Internal && decode_row(key@, self@) is None,
            },
    {
        let mut values: Vec<ScalarValue> = Vec::new();
        let mut pos: usize = 0;
        let mut i: usize = 0;
        proof {
            assert(key@.skip(0) =~= key@);
            assert(self@.skip(0) =~= self@);
        }
        while i < self.types.len()
            invariant
                i <= self.types@.len(),
                pos <= key@.len(),
                values@.len() == i,
                forall|k: int|
                    0 <= k < i ==> (#[trigger] values@[k]).spec_data_type() == self@[k],
                match decode_row(key@.skip(pos as int), self@.skip(i as int)) {
                    None => decode_row(key@, self@) is None,
                    Some(tail) => decode_row(key@, self@) == Some(
                        Seq::new(values@.len(), |k: int| values@[k]@) + tail,
                    ),
                },
            decreases self.types@.len() - i,
        {
            let ghost types = self@.skip(i as int);
            proof {
                assert(types[0] == self.types@[i as int]);
                assert(types.skip(1) =~= self@.skip(i + 1));
            }
            match decode_value(key, pos, self.types[i]) {
                None => {
                    return Err(BasaltError::internal("group key truncated"));
                },
                Some((v, next)) => {
                    let ghost done = Seq::new(values@.len(), |k: int| values@[k]@);
                    values.push(v);
                    proof {
                        let now = Seq::new(values@.len(), |k: int| values@[k]@);
                        assert(now =~= done.push(v@));
                        match decode_row(key@.skip(next as int), types.skip(1)) {
                            None => {},
                            Some(tail) => {
                                assert(done + (seq![v@] + tail) =~= now + tail);
                            },
                        }
                    }
                    pos = next;
                },
            }
            i = i + 1;
        }
        proof {
            assert(self@.skip(i as int) =~= seq![]);
            let done = Seq::new(values@.len(), |k: int| values@[k]@);
            assert(done + seq![] =~= done);
        }
        if pos < key.len() {
            return Err(BasaltError::internal("group key too long"));
        }
        Ok(values)
    }
}

/// The key of a longer prefix of a row is longer.
proof fn lemma_encode_row_prefix(row: Seq<ValueView>, n: nat)
    requires
        n <= row.len(),
    ensures
        encode_row(row.take(n as int)).len() <= encode_row(row).len(),
    decreases row.len() - n,
{
    if n < row.len() {
        lemma_encode_row_prefix(row, n + 1);
        assert(row.take((n + 1) as int).drop_last() =~= row.take(n as int));
    } else {
        assert(row.take(n as int) =~= row);
    }
}

/// The keys of more rows are longer.
pub proof fn lemma_encode_rows_prefix(columns: Seq<ArrayView>, m: nat, n: nat)
    requires
        m <= n,
    ensures
        encode_rows(columns, m).len() <= encode_rows(columns, n).len(),
        encode_rows(columns, n).take(encode_rows(columns, m).len() as int) == encode_rows(columns, m),
    decreases n - m,
{
    if m < n {
        lemma_encode_rows_prefix(columns, m, (n - 1) as nat);
        let s = encode_rows(columns, n);
        let k = encode_rows(columns, m).len() as int;
        assert(s.take(k) =~= encode_rows(columns, (n - 1) as nat).take(k));
    } else {
        assert(encode_rows(columns, n).take(encode_rows(columns, m).len() as int) =~= encode_rows(
            columns,
            m,
        ));
    }
}

/// Appends the bytes of one cell; `false`, with nothing said of `out`, when its
/// text is too long for a length of four bytes.
fn encode_value(array: &Array, row: usize, out: &mut Vec<u8>) -> (fine: bool)
    requires
        row < array@.values.len(),
    ensures
        fine ==> final(out)@ == old(out)@ + encode_cell(array@.values[row as int]),
        !fine ==> encode_cell(array@.values[row as int]).len() > u32::MAX,
{
    let ghost before = out@;
    let v = array.value(row);
    match v {
        Value::Null => {
            out.push(0);
            assert(out@ =~= before + encode_cell(v@));
            true
        },
        Value::Int64(n) => {
            out.push(1);
            let shifted: u64 = (n as i128 + 0x8000_0000_0000_0000i128) as u64;
            push_big_endian(out, shifted, 8);
            assert(out@ =~= before + encode_cell(v@));
            true
        },
        Value::Float64(x) => {
            out.push(1);
            let shifted: u64 = if x.bits >= SIGN {
                u64::MAX - x.bits
            } else {
                x.bits + SIGN
            };
            push_big_endian(out, shifted, 8);
            assert(out@ =~= before + encode_cell(v@));
            true
        },
        Value::Boolean(b) => {
            out.push(1);
            out.push(
                if b {
                    1
                } else {
                    0
                },
            );
            assert(out@ =~= before + encode_cell(v@));
            true
        },
        Value::Utf8(s) => {
            let bytes = s.as_str().as_bytes();
            let n: usize = bytes.len();
            if n > u32::MAX as usize {
                return false;
            }
            out.push(1);
            push_big_endian(out, n as u64, 4);
            let ghost head = out@;
            let mut i: usize = 0;
            assert(head + bytes@.take(0) =~= head);
            while i < n
                invariant
                    i <= n,
                    n == bytes@.len(),
                    out@ == head + bytes@.take(i as int),
                decreases n - i,
            {
                out.push(bytes[i]);
                assert(head + bytes@.take(i + 1) =~= (head + bytes@.take(i as int)).push(
                    bytes@[i as int],
                ));
                i = i + 1;
            }
            assert(bytes@.take(n as int) =~= bytes@);
            assert(out@ =~= before + encode_cell(v@));
            true
        },
    }
}

/// One cell read from `key` at `pos`, and the position behind it.
fn decode_value(key: &[u8], pos: usize, data_type: DataType) -> (r: Option<(ScalarValue, usize)>)
    requires
        pos <= key@.len(),
    ensures
        match r {
            Some((v, next)) => {
                &&& next <= key@.len()
                &&& decode_cell(key@.skip(pos as int), data_type) == Some(
                    (v@, key@.skip(next as int)),
                )
                &&& v.spec_data_type() == data_type
            },
            None => decode_cell(key@.skip(pos as int), data_type) is None,
        },
{
    let ghost k = key@.skip(pos as int);
    let n: usize = key.len();
    if pos >= n {
        return None;
    }
    assert(k[0] == key@[pos as int]);
    assert(k.skip(1) =~= key@.skip(pos + 1));
    if key[pos] == 0 {
        let v = match data_type {
            DataType::Int64 => ScalarValue::Int64(None),
            DataType::Float64 => ScalarValue::Float64(None),
            DataType::Utf8 => ScalarValue::Utf8(None),
            DataType::Boolean => ScalarValue::Boolean(None),
        };
        return Some((v, pos + 1));
    }
    let start: usize = pos + 1;
    let ghost rest = k.skip(1);
    proof {
        lemma_powers();
    }
    match data_type {
        DataType::Int64 => {
            if n - start < 8 {
                return None;
            }
            proof {
                assert(rest.take(8) =~= key@.subrange(start as int, start + 8));
                assert(rest.skip(8) =~= key@.skip(start + 8));
            }
            let u: u64 = read_big_endian(key, start, 8);
            let v: i64 = (u as i128 - 0x8000_0000_0000_0000i128) as i64;
            Some((ScalarValue::Int64(Some(v)), start + 8))
        },
        DataType::Float64 => {
            if n - start < 8 {
                return None;
            }
            proof {
                assert(rest.take(8) =~= key@.subrange(start as int, start + 8));
                assert(rest.skip(8) =~= key@.skip(start + 8));
            }
            let u: u64 = read_big_endian(key, start, 8);
            let x = if u >= SIGN {
                Float64 { bits: u - SIGN }
            } else {
                Float64 { bits: u64::MAX - u }
            };
            Some((ScalarValue::Float64(Some(x)), start + 8))
        },
        DataType::Boolean => {
            if n - start < 1 {
                return None;
            }
            assert(rest.skip(1) =~= key@.skip(start + 1));
            Some((ScalarValue::Boolean(Some(key[start] != 0)), start + 1))
        },
        DataType::Utf8 => {
            if n - start < 4 {
                return None;
            }
            proof {
                assert(rest.take(4) =~= key@.subrange(start as int, start + 4));
            }
            let len: u64 = read_big_endian(key, start, 4);
            let body: usize = start + 4;
            let ghost tail = rest.skip(4);
            assert(tail =~= key@.skip(body as int));
            if ((n - body) as u64) < len {
                return None;
            }
            let end: usize = body + len as usize;
            proof {
                assert(tail.take(len as int) =~= key@.subrange(body as int, end as int));
                assert(tail.skip(len as int) =~= key@.skip(end as int));
            }
            let bytes = vstd::slice::slice_subrange(key, body, end);
            match utf8_text(bytes) {
                Some(s) => Some((ScalarValue::Utf8(Some(s)), end)),
                None => None,
            }
        },
    }
}

} // verus!
