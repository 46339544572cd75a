//! How keys are laid out, byte by byte.

use vstd::arithmetic::div_mod::lemma_div_denominator;
use vstd::arithmetic::power::{lemma_pow0, lemma_pow1, lemma_pow_adds, lemma_pow_positive, pow};
use vstd::prelude::*;
use vstd::utf8::encode_utf8;

use crate::physical_plan::aggregate::group_keys::{
    big_endian, bytes_before, encode_cell, encode_row,
};
use crate::types::value::ValueView;

verus! {

proof fn lemma_big_digit(n: int, width: nat, i: nat)
    requires
        n >= 0,
        i < width,
    ensures
        big_endian(n, width).len() == width,
        big_endian(n, width)[i as int] == (n / pow(256, (width - 1 - i) as nat)) % 256,
    decreases width,
{
    lemma_big_len(n, width);
    lemma_pow0(256);
    let before = big_endian(n / 256, (width - 1) as nat);
    lemma_big_len(n / 256, (width - 1) as nat);
    if i == width - 1 {
        assert(n / 1 == n);
    } else {
        lemma_big_digit(n / 256, (width - 1) as nat, i);
        let k = (width - 2 - i) as nat;
        assert(big_endian(n, width)[i as int] == before[i as int]);
        lemma_pow_adds(256, 1, k);
        lemma_pow1(256);
        lemma_pow_positive(256, k);
        lemma_div_denominator(n, 256, pow(256, k));
        assert(1 + k == width - 1 - i);
    }
}

proof fn lemma_big_len(n: int, width: nat)
    ensures
        big_endian(n, width).len() == width,
    decreases width,
{
    if width > 0 {
        lemma_big_len(n / 256, (width - 1) as nat);
    }
}

/// The key of a row is the keys of its cells, one after the other.
pub proof fn rows_are_keyed_cell_by_cell(row: Seq<ValueView>, v: ValueView)
    ensures
        encode_row(row.push(v)) == encode_row(row) + encode_cell(v),
        encode_row(seq![]) == Seq::<u8>::empty(),
        encode_row(seq![v]) == encode_cell(v),
{
    assert(row.push(v).drop_last() =~= row);
    let none: Seq<ValueView> = seq![];
    assert(seq![v].drop_last() =~= none);
    assert(encode_row(none) =~= Seq::<u8>::empty());
    assert(encode_row(seq![v]) =~= encode_cell(v));
}

/// A null comes before every value, and false before true.
pub proof fn nulls_and_falsehoods_come_first(v: ValueView)
    requires
        v != ValueView::Null,
    ensures
        bytes_before(encode_row(seq![ValueView::Null]), encode_row(seq![v])),
        bytes_before(
            encode_row(seq![ValueView::Boolean(false)]),
            encode_row(seq![ValueView::Boolean(true)]),
        ),
{
    rows_are_keyed_cell_by_cell(seq![], v);
    rows_are_keyed_cell_by_cell(seq![], ValueView::Null);
    rows_are_keyed_cell_by_cell(seq![], ValueView::Boolean(false));
    rows_are_keyed_cell_by_cell(seq![], ValueView::Boolean(true));
    let a = encode_cell(ValueView::Null);
    let b = encode_cell(v);
    assert(a[0] < b[0]);
    assert(a.take(0) =~= b.take(0));
    let f = encode_cell(ValueView::Boolean(false));
    let t = encode_cell(ValueView::Boolean(true));
    assert(f[1] < t[1]);
    assert(f.take(1) =~= t.take(1));
}

/// A value begins with a one. An integer follows in eight bytes, the most
/// significant first, counted from the least integer on; a text in its UTF-8,
/// behind its length in four bytes.
pub proof fn cells_are_laid_out(n: i64, s: Seq<char>, i: nat)
    requires
        i < 8,
    ensures
        encode_cell(ValueView::Null).len() == 1,
        ({
            let c = encode_cell(ValueView::Int64(n));
            &&& c.len() == 9 && c[0] == 1
            &&& c[1 + i as int] == ((n - i64::MIN) / pow(256, (7 - i) as nat)) % 256
        }),
        ({
            let c = encode_cell(ValueView::Utf8(s));
            let m = encode_utf8(s).len();
            &&& c.len() == 5 + m && c[0] == 1
            &&& i < 4 ==> c[1 + i as int] == (m as int / pow(256, (3 - i) as nat)) % 256
            &&& c.skip(5) == encode_utf8(s)
        }),
{
    lemma_big_digit(n - i64::MIN, 8, i);
    let m = encode_utf8(s).len() as int;
    lemma_big_len(m, 4);
    if i < 4 {
        lemma_big_digit(m, 4, i);
    }
    assert(encode_cell(ValueView::Utf8(s)).skip(5) =~= encode_utf8(s));
}

} // verus!
