//! Budgets, and how the bytes of a spilled batch are laid out.

use vstd::arithmetic::div_mod::lemma_div_denominator;
use vstd::arithmetic::power::{lemma_pow0, lemma_pow_positive, pow};
use vstd::prelude::*;

use crate::batch::BatchView;
use crate::physical_plan::aggregate::group_keys::encode_rows;
use crate::physical_plan::spill::{batch_bytes, boundary_bytes, little_endian, ReservationView};

verus! {

/// What is taken of a budget can be given back, and then the budget is as it
/// was. More than is left cannot be taken; all that is left can.
pub proof fn budgets_balance(v: ReservationView, bytes: nat)
    requires
        v.used <= v.limit,
    ensures
        v.grown(bytes) matches Some(w) ==> w.shrunk(bytes) == v && w.limit == v.limit && w.used
            == v.used + bytes,
        v.grown(bytes) is Some <==> bytes <= v.limit - v.used,
        v.shrunk(bytes).used <= v.used,
        v.shrunk(bytes).limit == v.limit,
        bytes <= v.used ==> v.shrunk(bytes).grown(bytes) == Some(v),
        bytes >= v.used ==> v.shrunk(bytes).used == 0,
{
}

/// The byte of a number that stands for a power of 256.
pub open spec fn byte_of(n: int, k: nat) -> int {
    (n / pow(256, k)) % 256
}

proof fn lemma_digit(n: int, width: nat, k: nat)
    requires
        n >= 0,
        k < width,
    ensures
        little_endian(n, width).len() == width,
        little_endian(n, width)[k as int] == byte_of(n, k),
    decreases width,
{
    lemma_little_len(n, width);
    lemma_pow0(256);
    let rest = little_endian(n / 256, (width - 1) as nat);
    if k == 0 {
        assert(n / 1 == n);
    } else {
        let m = (k - 1) as nat;
        lemma_digit(n / 256, (width - 1) as nat, m);
        assert(little_endian(n, width)[k as int] == rest[m as int]);
        vstd::arithmetic::power::lemma_pow_adds(256, 1, m);
        vstd::arithmetic::power::lemma_pow1(256);
        lemma_pow_positive(256, m);
        lemma_div_denominator(n, 256, pow(256, m));
    }
}

proof fn lemma_little_len(n: int, width: nat)
    ensures
        little_endian(n, width).len() == width,
    decreases width,
{
    if width > 0 {
        lemma_little_len(n / 256, (width - 1) as nat);
    }
}

/// A spilled batch begins with its number of rows and the length of its encoded
/// rows, eight bytes each and the least significant one first; then come the
/// encoded rows, and behind them a boundary of four bytes before each row and
/// one at the end.
pub proof fn batches_are_laid_out(b: BatchView, k: nat)
    requires
        k < 8,
    ensures
        ({
            let s = batch_bytes(b);
            let rows = encode_rows(b.columns, b.num_rows);
            &&& s.len() == 16 + rows.len() + 4 * (b.num_rows + 1)
            &&& s[k as int] == byte_of(b.num_rows as int, k)
            &&& s[8 + k as int] == byte_of(rows.len() as int, k)
            &&& s.subrange(16, 16 + rows.len() as int) == rows
        }),
{
    let rows = encode_rows(b.columns, b.num_rows);
    let s = batch_bytes(b);
    lemma_digit(b.num_rows as int, 8, k);
    lemma_digit(rows.len() as int, 8, k);
    lemma_boundaries(b, b.num_rows + 1);
    assert(s.subrange(16, 16 + rows.len() as int) =~= rows);
}

proof fn lemma_boundaries(b: BatchView, n: nat)
    ensures
        boundary_bytes(b.columns, n).len() == 4 * n,
    decreases n,
{
    if n > 0 {
        lemma_boundaries(b, (n - 1) as nat);
        lemma_little_len(encode_rows(b.columns, (n - 1) as nat).len() as int, 4);
    }
}

/// The boundary before a row is where the bytes of the rows before it end.
pub proof fn boundaries_tell_where_rows_begin(b: BatchView, n: nat, row: nat, k: nat)
    requires
        row < n,
        k < 4,
    ensures
        boundary_bytes(b.columns, n)[4 * row as int + k] == byte_of(
            encode_rows(b.columns, row).len() as int,
            k,
        ),
    decreases n,
{
    let before = boundary_bytes(b.columns, (n - 1) as nat);
    lemma_boundaries(b, (n - 1) as nat);
    if row == n - 1 {
        lemma_digit(encode_rows(b.columns, row).len() as int, 4, k);
    } else {
        boundaries_tell_where_rows_begin(b, (n - 1) as nat, row, k);
        assert(boundary_bytes(b.columns, n)[4 * row as int + k] == before[4 * row as int + k]);
    }
}

} // verus!
