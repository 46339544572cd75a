//! The grammar: which tokens spell which statement. The parser reads every
//! spelling of a statement as that statement, and reads nothing else.

use vstd::prelude::*;

use crate::error::ErrorKind;
use crate::sql::ast::{AstView, ItemView, SelectView};
use crate::sql::parser::{
    after, alias_at, binding, cast_at, clauses_at, climbed, expected, expr_at, item_at, items_at,
    limit_at, nested_at, null_test_at, number_value, operator, order_at, prefix_at,
    row_count, select_at, sort_key_at, sort_keys_at, statement_at, type_named, where_at,
    Tokens,
};
use crate::sql::token::{Keyword, Mark, TokenView};
use crate::types::coercion::{BinaryOp, UnaryOp};
use crate::types::value::ValueView;

verus! {

// ---------------------------------------------------------------------------
// Expressions

/// How the operators rank, from those that bind least: `OR`, `AND`, `NOT`, `IS
/// NULL`, comparisons, sums, products, signs.
pub open spec fn rank(op: BinaryOp) -> int {
    match op {
        BinaryOp::Or => 1,
        BinaryOp::And => 2,
        BinaryOp::Eq => 5,
        BinaryOp::NotEq => 5,
        BinaryOp::Lt => 5,
        BinaryOp::LtEq => 5,
        BinaryOp::Gt => 5,
        BinaryOp::GtEq => 5,
        BinaryOp::Add => 6,
        BinaryOp::Sub => 6,
        BinaryOp::Mul => 7,
        BinaryOp::Div => 7,
        BinaryOp::Mod => 7,
    }
}

/// The rank of `NOT`.
pub open spec fn not_rank() -> int {
    3
}

/// The rank of `IS NULL`.
pub open spec fn is_rank() -> int {
    4
}

/// The rank of a sign.
pub open spec fn sign_rank() -> int {
    8
}

/// The rank of what needs no operator.
pub open spec fn atom_rank() -> int {
    9
}

/// How an operator is written.
pub open spec fn op_token(op: BinaryOp) -> TokenView {
    match op {
        BinaryOp::Or => TokenView::Keyword(Keyword::Or),
        BinaryOp::And => TokenView::Keyword(Keyword::And),
        BinaryOp::Eq => TokenView::Mark(Mark::Eq),
        BinaryOp::NotEq => TokenView::Mark(Mark::NotEq),
        BinaryOp::Lt => TokenView::Mark(Mark::Lt),
        BinaryOp::LtEq => TokenView::Mark(Mark::LtEq),
        BinaryOp::Gt => TokenView::Mark(Mark::Gt),
        BinaryOp::GtEq => TokenView::Mark(Mark::GtEq),
        BinaryOp::Add => TokenView::Mark(Mark::Plus),
        BinaryOp::Sub => TokenView::Mark(Mark::Minus),
        BinaryOp::Mul => TokenView::Mark(Mark::Star),
        BinaryOp::Div => TokenView::Mark(Mark::Slash),
        BinaryOp::Mod => TokenView::Mark(Mark::Percent),
    }
}

/// The lesser of two ranks.
pub open spec fn lower(a: int, b: int) -> int {
    if a <= b {
        a
    } else {
        b
    }
}

/// The least rank of the operators that a tree's first operand goes to: an
/// operator in front of it has to rank below.
pub open spec fn top(e: AstView) -> int
    decreases e,
{
    match e {
        AstView::Binary { left, op, right } => lower(rank(op), top(*left)),
        AstView::IsNull { expr, negated } => lower(is_rank(), top(*expr)),
        _ => atom_rank(),
    }
}

/// The greatest rank of an operator that may stand behind a tree without taking
/// its last operand away from it: operators of one rank go from left to right.
pub open spec fn open_end(e: AstView) -> int
    decreases e,
{
    match e {
        AstView::Binary { left, op, right } => lower(rank(op), open_end(*right)),
        AstView::Unary { op, expr } => if op is Not && open_end(*expr) >= not_rank() {
            not_rank() - 1
        } else {
            open_end(*expr)
        },
        _ => atom_rank(),
    }
}

/// Whether tokens spell an expression.
pub open spec fn spells(e: AstView, w: Seq<TokenView>) -> bool
    decreases e, w.len(),
{
    ||| {
        &&& w.len() > 1
        &&& w[0] == TokenView::Mark(Mark::Plus)
        &&& top(e) >= sign_rank()
        &&& spells(e, w.skip(1))
    }
    ||| match e {
        AstView::Identifier(s) => w == seq![TokenView::Identifier(s)],
        AstView::Literal(v) => w.len() == 1 && match w[0] {
            TokenView::Number(s) => number_value(s) == Some(v),
            TokenView::String(s) => v == ValueView::Utf8(s),
            TokenView::Keyword(Keyword::True) => v == ValueView::Boolean(true),
            TokenView::Keyword(Keyword::False) => v == ValueView::Boolean(false),
            TokenView::Keyword(Keyword::Null) => v == ValueView::Null,
            _ => false,
        },
        AstView::Binary { left, op, right } => {
            &&& open_end(*left) >= rank(op)
            &&& top(*right) > rank(op)
            &&& exists|k: int|
                0 < k < w.len() - 1 && #[trigger] w[k] == op_token(op) && spells(*left, w.take(k))
                    && spells(*right, w.skip(k + 1))
        },
        AstView::Unary { op, expr } => w.len() > 1 && spells(*expr, w.skip(1)) && match op {
            UnaryOp::Neg => w[0] == TokenView::Mark(Mark::Minus) && top(*expr) >= sign_rank(),
            UnaryOp::Not => w[0] == TokenView::Keyword(Keyword::Not) && top(*expr) >= not_rank(),
        },
        AstView::Cast { expr, to } => {
            let n = w.len() as int;
            &&& n > 5
            &&& w[0] == TokenView::Keyword(Keyword::Cast)
            &&& w[1] == TokenView::Mark(Mark::LParen)
            &&& spells(*expr, w.subrange(2, n - 3))
            &&& w[n - 3] == TokenView::Keyword(Keyword::As)
            &&& w[n - 2] matches TokenView::Identifier(s) && type_named(s) == Some(to)
            &&& w[n - 1] == TokenView::Mark(Mark::RParen)
        },
        AstView::IsNull { expr, negated } => {
            let n = w.len() as int;
            let m: int = if negated {
                3
            } else {
                2
            };
            &&& n > m
            &&& open_end(*expr) >= is_rank()
            &&& spells(*expr, w.take(n - m))
            &&& w[n - m] == TokenView::Keyword(Keyword::Is)
            &&& negated ==> w[n - 2] == TokenView::Keyword(Keyword::Not)
            &&& w[n - 1] == TokenView::Keyword(Keyword::Null)
        },
        AstView::Nested(inner) => {
            let n = w.len() as int;
            &&& n > 2
            &&& w[0] == TokenView::Mark(Mark::LParen)
            &&& spells(*inner, w.subrange(1, n - 1))
            &&& w[n - 1] == TokenView::Mark(Mark::RParen)
        },
    }
}

/// The rank of a token as an operator behind an expression; zero where it is
/// none.
spec fn token_rank(t: TokenView) -> int {
    if t == TokenView::Keyword(Keyword::Is) {
        is_rank()
    } else {
        match operator(t) {
            Some(op) => rank(op),
            None => 0,
        }
    }
}

/// Whether tokens stand at a place, with more behind them.
spec fn stands(ts: Tokens, p: int, w: Seq<TokenView>) -> bool {
    &&& 0 <= p
    &&& p + w.len() < ts.len()
    &&& forall|i: int| 0 <= i < w.len() ==> (#[trigger] ts[p + i]).0 == w[i]
}

/// The binding power that goes with a rank.
spec fn power_of(r: int) -> int {
    if r <= 3 {
        2 * r - 1
    } else if r == 4 {
        6
    } else if r <= 8 {
        2 * r - 3
    } else {
        100
    }
}

proof fn lemma_rank(op: BinaryOp)
    ensures
        binding(op).0 == power_of(rank(op)),
        binding(op).1 == power_of(rank(op)) + 1,
        operator(op_token(op)) == Some(op),
        1 <= rank(op) <= 7,
        rank(op) != 3,
        rank(op) != 4,
{
}

proof fn lemma_spelled(e: AstView, w: Seq<TokenView>)
    requires
        spells(e, w),
    ensures
        w.len() > 0,
        1 <= top(e) <= 9,
{
    lemma_top(e);
}

proof fn lemma_top(e: AstView)
    ensures
        1 <= top(e) <= 9,
    decreases e,
{
    match e {
        AstView::Binary { left, op, right } => {
            lemma_rank(op);
            lemma_top(*left);
        },
        AstView::IsNull { expr, negated } => {
            lemma_top(*expr);
        },
        _ => {},
    }
}

proof fn lemma_open(e: AstView)
    ensures
        1 <= open_end(e) <= 9,
    decreases e,
{
    match e {
        AstView::Binary { left, op, right } => {
            lemma_rank(op);
            lemma_open(*right);
        },
        AstView::Unary { op, expr } => {
            lemma_open(*expr);
        },
        _ => {},
    }
}

proof fn lemma_stops(ts: Tokens, q: int, e: AstView, power: int)
    requires
        0 <= q < ts.len(),
        power_of(token_rank(ts[q].0)) < power,
    ensures
        climbed(ts, q, e, power) == Ok::<(AstView, int), ErrorKind>((e, q)),
{
    match operator(ts[q].0) {
        Some(op) => {
            lemma_rank(op);
        },
        None => {},
    }
}

proof fn lemma_part(ts: Tokens, p: int, w: Seq<TokenView>, a: int, b: int)
    requires
        stands(ts, p, w),
        0 <= a <= b <= w.len(),
    ensures
        stands(ts, p + a, w.subrange(a, b)),
        b < w.len() ==> ts[p + b].0 == w[b],
{
    let v = w.subrange(a, b);
    assert forall|i: int| 0 <= i < v.len() implies (#[trigger] ts[p + a + i]).0 == v[i] by {
        assert(ts[p + (a + i)].0 == w[a + i]);
    }
    if b < w.len() {
        assert(ts[p + b].0 == w[b]);
    }
}

/// What a spelled expression is read as: the expression, and then whatever
/// stands behind it.
#[verifier::rlimit(40)]
proof fn lemma_reads(ts: Tokens, p: int, w: Seq<TokenView>, e: AstView, power: int)
    requires
        spells(e, w),
        stands(ts, p, w),
        power <= power_of(top(e)),
        token_rank(ts[p + w.len()].0) <= open_end(e),
    ensures
        expr_at(ts, p, power) == climbed(ts, p + w.len(), e, power),
        top(e) >= sign_rank() ==> prefix_at(ts, p) == Ok::<(AstView, int), ErrorKind>(
            (e, p + w.len()),
        ),
    decreases e, w.len(),
{
    let n = w.len() as int;
    let q = p + n;
    lemma_spelled(e, w);
    assert(ts[p + 0].0 == w[0]);
    let signed = w.len() > 1 && w[0] == TokenView::Mark(Mark::Plus) && top(e) >= sign_rank()
        && spells(e, w.skip(1));
    if signed {
        assert(w.subrange(1, n) =~= w.skip(1));
        lemma_part(ts, p, w, 1, n);
        lemma_reads(ts, p + 1, w.skip(1), e, 13);
        lemma_ranks(ts[q].0);
        lemma_stops(ts, q, e, 13);
    } else {
        match e {
            AstView::Identifier(s) => {},
            AstView::Literal(v) => {},
            AstView::Binary { left, op, right } => {
                let k = choose|k: int|
                    0 < k < w.len() - 1 && #[trigger] w[k] == op_token(op) && spells(
                        *left,
                        w.take(k),
                    ) && spells(*right, w.skip(k + 1));
                lemma_rank(op);
                assert(w.subrange(0, k) =~= w.take(k));
                assert(w.subrange(k + 1, n) =~= w.skip(k + 1));
                lemma_part(ts, p, w, 0, k);
                lemma_part(ts, p, w, k + 1, n);
                lemma_spelled(*left, w.take(k));
                lemma_spelled(*right, w.skip(k + 1));
                assert(token_rank(ts[p + k].0) == rank(op));
                lemma_powers(top(e), top(*left));
                lemma_powers(top(e), rank(op));
                lemma_reads(ts, p, w.take(k), *left, power);
                lemma_powers_above(rank(op), top(*right));
                lemma_reads(ts, p + k + 1, w.skip(k + 1), *right, binding(op).1);
                lemma_ranks(ts[q].0);
                lemma_powers(token_rank(ts[q].0), rank(op));
                lemma_stops(ts, q, *right, binding(op).1);
                assert(after(ts, p + k) == p + k + 1);
            },
            AstView::Unary { op, expr } => {
                assert(w.subrange(1, n) =~= w.skip(1));
                lemma_part(ts, p, w, 1, n);
                lemma_spelled(*expr, w.skip(1));
                lemma_ranks(ts[q].0);
                match op {
                    UnaryOp::Neg => {
                        lemma_powers(8, top(*expr));
                        lemma_reads(ts, p + 1, w.skip(1), *expr, 13);
                        lemma_stops(ts, q, *expr, 13);
                    },
                    UnaryOp::Not => {
                        lemma_powers(3, top(*expr));
                        lemma_reads(ts, p + 1, w.skip(1), *expr, 5);
                        lemma_powers(token_rank(ts[q].0), 2);
                        lemma_stops(ts, q, *expr, 5);
                    },
                }
            },
            AstView::Cast { expr, to } => {
                let inner = w.subrange(2, n - 3);
                lemma_part(ts, p, w, 2, n - 3);
                lemma_part(ts, p, w, 0, 1);
                lemma_part(ts, p, w, 0, n - 2);
                lemma_part(ts, p, w, 0, n - 1);
                lemma_spelled(*expr, inner);
                lemma_powers(0, top(*expr));
                lemma_open(*expr);
                lemma_reads(ts, p + 2, inner, *expr, 0);
                assert(token_rank(ts[p + n - 3].0) == 0);
                lemma_stops(ts, p + n - 3, *expr, 0);
                assert(expr_at(ts, p + 2, 0) == Ok::<(AstView, int), ErrorKind>(
                    (*expr, p + n - 3),
                ));
                assert(cast_at(ts, p + 1) == Ok::<(AstView, int), ErrorKind>((e, q)));
            },
            AstView::IsNull { expr, negated } => {
                let m: int = if negated {
                    3
                } else {
                    2
                };
                let inner = w.take(n - m);
                assert(w.subrange(0, n - m) =~= inner);
                lemma_part(ts, p, w, 0, n - m);
                lemma_part(ts, p, w, 0, n - 2);
                lemma_part(ts, p, w, 0, n - 1);
                lemma_spelled(*expr, inner);
                lemma_powers(top(e), top(*expr));
                lemma_powers(top(e), 4);
                lemma_reads(ts, p, inner, *expr, power);
                let at = p + n - m;
                assert(ts[at].0 == TokenView::Keyword(Keyword::Is));
                assert(null_test_at(ts, at + 1) == Ok::<(bool, int), ErrorKind>((negated, q)));
            },
            AstView::Nested(x) => {
                let inner = w.subrange(1, n - 1);
                lemma_part(ts, p, w, 1, n - 1);
                lemma_spelled(*x, inner);
                lemma_powers(0, top(*x));
                lemma_open(*x);
                lemma_reads(ts, p + 1, inner, *x, 0);
                assert(token_rank(ts[p + n - 1].0) == 0);
                lemma_stops(ts, p + n - 1, *x, 0);
                assert(nested_at(ts, p + 1) == Ok::<(AstView, int), ErrorKind>((e, q)));
            },
        }
    }
}

proof fn lemma_ranks(t: TokenView)
    ensures
        0 <= token_rank(t) <= 7,
        token_rank(t) != 3,
        power_of(token_rank(t)) < 13,
{
    match operator(t) {
        Some(op) => {
            lemma_rank(op);
        },
        None => {},
    }
}

proof fn lemma_powers(a: int, b: int)
    requires
        0 <= a <= b <= 9,
    ensures
        power_of(a) <= power_of(b),
{
}

proof fn lemma_powers_above(a: int, b: int)
    requires
        0 <= a < b <= 9,
    ensures
        power_of(a) + 1 <= power_of(b),
{
}

// ---------------------------------------------------------------------------
// Statements

/// Whether tokens spell an alias; none where there is none.
pub open spec fn spells_alias(alias: Option<Seq<char>>, w: Seq<TokenView>) -> bool {
    match alias {
        None => w.len() == 0,
        Some(s) => {
            ||| w == seq![TokenView::Identifier(s)]
            ||| w == seq![TokenView::Keyword(Keyword::As), TokenView::Identifier(s)]
        },
    }
}

/// Whether tokens spell a projection: `*`, or an expression that may have an
/// alias.
pub open spec fn spells_item(item: ItemView, w: Seq<TokenView>) -> bool {
    match item {
        None => w == seq![TokenView::Mark(Mark::Star)],
        Some((e, alias)) => exists|k: int|
            0 < k <= w.len() && spells(e, #[trigger] w.take(k)) && spells_alias(alias, w.skip(k)),
    }
}

/// Whether tokens spell projections with commas between them.
pub open spec fn spells_items(items: Seq<ItemView>, w: Seq<TokenView>) -> bool
    decreases items.len(),
{
    if items.len() == 0 {
        false
    } else if items.len() == 1 {
        spells_item(items[0], w)
    } else {
        exists|k: int|
            0 < k < w.len() && #[trigger] w[k] == TokenView::Mark(Mark::Comma) && spells_item(
                items[0],
                w.take(k),
            ) && spells_items(items.skip(1), w.skip(k + 1))
    }
}

/// Whether tokens spell a sort key: an expression, descending with `DESC`
/// behind it and ascending with `ASC` or nothing.
pub open spec fn spells_key(key: (AstView, bool), w: Seq<TokenView>) -> bool {
    if key.1 {
        ||| spells(key.0, w)
        ||| w.len() > 1 && w.last() == TokenView::Keyword(Keyword::Asc) && spells(
            key.0,
            w.drop_last(),
        )
    } else {
        w.len() > 1 && w.last() == TokenView::Keyword(Keyword::Desc) && spells(
            key.0,
            w.drop_last(),
        )
    }
}

/// Whether tokens spell sort keys with commas between them.
pub open spec fn spells_keys(keys: Seq<(AstView, bool)>, w: Seq<TokenView>) -> bool
    decreases keys.len(),
{
    if keys.len() == 0 {
        false
    } else if keys.len() == 1 {
        spells_key(keys[0], w)
    } else {
        exists|k: int|
            0 < k < w.len() && #[trigger] w[k] == TokenView::Mark(Mark::Comma) && spells_key(
                keys[0],
                w.take(k),
            ) && spells_keys(keys.skip(1), w.skip(k + 1))
    }
}

/// Whether tokens spell a `WHERE` clause; none where there is none.
pub open spec fn spells_where(selection: Option<AstView>, w: Seq<TokenView>) -> bool {
    match selection {
        None => w.len() == 0,
        Some(e) => w.len() > 1 && w[0] == TokenView::Keyword(Keyword::Where) && spells(
            e,
            w.skip(1),
        ),
    }
}

/// Whether tokens spell an `ORDER BY` clause; none where there are no keys.
pub open spec fn spells_order(keys: Seq<(AstView, bool)>, w: Seq<TokenView>) -> bool {
    if keys.len() == 0 {
        w.len() == 0
    } else {
        w.len() > 1 && w[0] == TokenView::Keyword(Keyword::OrderBy) && spells_keys(keys, w.skip(1))
    }
}

/// Whether tokens spell a `LIMIT` clause; none where there is none.
pub open spec fn spells_limit(limit: Option<u64>, w: Seq<TokenView>) -> bool {
    match limit {
        None => w.len() == 0,
        Some(n) => w.len() == 2 && w[0] == TokenView::Keyword(Keyword::Limit) && (w[1] matches
            TokenView::Number(s) && row_count(s) == Some(n)),
    }
}

/// Whether tokens spell a query, with its projections up to `a`, its table up
/// to `b`, its condition up to `c`, its order up to `d`, and its limit behind.
pub open spec fn spells_parts(
    s: SelectView,
    w: Seq<TokenView>,
    a: int,
    b: int,
    c: int,
    d: int,
) -> bool {
    &&& 1 < a && a + 2 <= b <= c <= d <= w.len()
    &&& w[0] == TokenView::Keyword(Keyword::Select)
    &&& spells_items(s.projections, w.subrange(1, a))
    &&& w[a] == TokenView::Keyword(Keyword::From)
    &&& w[a + 1] == TokenView::Identifier(s.table)
    &&& spells_alias(s.table_alias, w.subrange(a + 2, b))
    &&& spells_where(s.selection, w.subrange(b, c))
    &&& spells_order(s.order_by, w.subrange(c, d))
    &&& spells_limit(s.limit, w.subrange(d, w.len() as int))
}

/// Whether tokens spell a query.
pub open spec fn spells_select(s: SelectView, w: Seq<TokenView>) -> bool {
    exists|a: int, b: int, c: int, d: int| #[trigger] spells_parts(s, w, a, b, c, d)
}

/// Whether tokens spell a statement: a query, perhaps a semicolon, and the end.
pub open spec fn spells_statement(s: SelectView, w: Seq<TokenView>) -> bool {
    let n = w.len() as int;
    &&& n > 1
    &&& w[n - 1] == TokenView::Mark(Mark::Eof)
    &&& {
        ||| spells_select(s, w.take(n - 1))
        ||| w[n - 2] == TokenView::Mark(Mark::Semicolon) && spells_select(s, w.take(n - 2))
    }
}

/// Whether a token ends an expression and whatever may stand behind one.
spec fn ends_clause(t: TokenView) -> bool {
    &&& token_rank(t) == 0
    &&& !(t is Identifier)
    &&& t != TokenView::Keyword(Keyword::As)
    &&& t != TokenView::Keyword(Keyword::Asc)
    &&& t != TokenView::Keyword(Keyword::Desc)
}

proof fn lemma_reads_whole(ts: Tokens, p: int, w: Seq<TokenView>, e: AstView)
    requires
        spells(e, w),
        stands(ts, p, w),
        token_rank(ts[p + w.len()].0) == 0,
    ensures
        expr_at(ts, p, 0) == Ok::<(AstView, int), ErrorKind>((e, p + w.len())),
        w.len() > 0,
        ts[p].0 != TokenView::Mark(Mark::Star),
{
    lemma_spelled(e, w);
    lemma_open(e);
    lemma_powers(0, top(e));
    lemma_reads(ts, p, w, e, 0);
    lemma_stops(ts, p + w.len(), e, 0);
    assert(ts[p + 0].0 == w[0]);
}

proof fn lemma_reads_alias(ts: Tokens, p: int, w: Seq<TokenView>, alias: Option<Seq<char>>)
    requires
        spells_alias(alias, w),
        stands(ts, p, w),
        ends_clause(ts[p + w.len()].0),
    ensures
        alias_at(ts, p) == Ok::<(Option<Seq<char>>, int), ErrorKind>((alias, p + w.len())),
{
    if w.len() > 0 {
        assert(ts[p + 0].0 == w[0]);
    }
    if w.len() > 1 {
        assert(ts[p + 1].0 == w[1]);
    }
}

#[verifier::rlimit(40)]
proof fn lemma_reads_item(ts: Tokens, p: int, w: Seq<TokenView>, item: ItemView)
    requires
        spells_item(item, w),
        stands(ts, p, w),
        ends_clause(ts[p + w.len()].0),
    ensures
        item_at(ts, p) == Ok::<(ItemView, int), ErrorKind>((item, p + w.len())),
        w.len() > 0,
{
    let n = w.len() as int;
    match item {
        None => {
            assert(ts[p + 0].0 == w[0]);
        },
        Some((e, alias)) => {
            let k = choose|k: int|
                0 < k <= w.len() && spells(e, #[trigger] w.take(k)) && spells_alias(
                    alias,
                    w.skip(k),
                );
            assert(w.subrange(0, k) =~= w.take(k));
            assert(w.subrange(k, n) =~= w.skip(k));
            lemma_part(ts, p, w, 0, k);
            lemma_part(ts, p, w, k, n);
            if k < n {
                assert(ts[p + k].0 == w[k]);
                assert(w.skip(k)[0] == w[k]);
            }
            assert(token_rank(ts[p + k].0) == 0);
            lemma_reads_whole(ts, p, w.take(k), e);
            lemma_reads_alias(ts, p + k, w.skip(k), alias);
        },
    }
}

#[verifier::rlimit(40)]
proof fn lemma_reads_items(
    ts: Tokens,
    p: int,
    w: Seq<TokenView>,
    items: Seq<ItemView>,
    done: Seq<ItemView>,
)
    requires
        spells_items(items, w),
        stands(ts, p, w),
        ends_clause(ts[p + w.len()].0),
        ts[p + w.len()].0 != TokenView::Mark(Mark::Comma),
    ensures
        items_at(ts, p, done) == Ok::<(Seq<ItemView>, int), ErrorKind>(
            (done + items, p + w.len()),
        ),
    decreases items.len(),
{
    let n = w.len() as int;
    if items.len() == 1 {
        lemma_reads_item(ts, p, w, items[0]);
        assert(done + items =~= done.push(items[0]));
    } else {
        let k = choose|k: int|
            0 < k < w.len() && #[trigger] w[k] == TokenView::Mark(Mark::Comma) && spells_item(
                items[0],
                w.take(k),
            ) && spells_items(items.skip(1), w.skip(k + 1));
        assert(w.subrange(0, k) =~= w.take(k));
        assert(w.subrange(k + 1, n) =~= w.skip(k + 1));
        lemma_part(ts, p, w, 0, k);
        lemma_part(ts, p, w, k + 1, n);
        lemma_reads_item(ts, p, w.take(k), items[0]);
        lemma_reads_items(ts, p + k + 1, w.skip(k + 1), items.skip(1), done.push(items[0]));
        assert(done.push(items[0]) + items.skip(1) =~= done + items);
    }
}

proof fn lemma_reads_key(ts: Tokens, p: int, w: Seq<TokenView>, key: (AstView, bool))
    requires
        spells_key(key, w),
        stands(ts, p, w),
        ends_clause(ts[p + w.len()].0),
    ensures
        sort_key_at(ts, p) == Ok::<((AstView, bool), int), ErrorKind>((key, p + w.len())),
        w.len() > 0,
{
    let n = w.len() as int;
    if key.1 && spells(key.0, w) {
        lemma_reads_whole(ts, p, w, key.0);
    } else {
        assert(w.subrange(0, n - 1) =~= w.drop_last());
        lemma_part(ts, p, w, 0, n - 1);
        assert(ts[p + (n - 1)].0 == w[n - 1]);
        lemma_reads_whole(ts, p, w.drop_last(), key.0);
    }
}

#[verifier::rlimit(40)]
proof fn lemma_reads_keys(
    ts: Tokens,
    p: int,
    w: Seq<TokenView>,
    keys: Seq<(AstView, bool)>,
    done: Seq<(AstView, bool)>,
)
    requires
        spells_keys(keys, w),
        stands(ts, p, w),
        ends_clause(ts[p + w.len()].0),
        ts[p + w.len()].0 != TokenView::Mark(Mark::Comma),
    ensures
        sort_keys_at(ts, p, done) == Ok::<(Seq<(AstView, bool)>, int), ErrorKind>(
            (done + keys, p + w.len()),
        ),
    decreases keys.len(),
{
    let n = w.len() as int;
    if keys.len() == 1 {
        lemma_reads_key(ts, p, w, keys[0]);
        assert(done + keys =~= done.push(keys[0]));
    } else {
        let k = choose|k: int|
            0 < k < w.len() && #[trigger] w[k] == TokenView::Mark(Mark::Comma) && spells_key(
                keys[0],
                w.take(k),
            ) && spells_keys(keys.skip(1), w.skip(k + 1));
        assert(w.subrange(0, k) =~= w.take(k));
        assert(w.subrange(k + 1, n) =~= w.skip(k + 1));
        lemma_part(ts, p, w, 0, k);
        lemma_part(ts, p, w, k + 1, n);
        lemma_reads_key(ts, p, w.take(k), keys[0]);
        lemma_reads_keys(ts, p + k + 1, w.skip(k + 1), keys.skip(1), done.push(keys[0]));
        assert(done.push(keys[0]) + keys.skip(1) =~= done + keys);
    }
}

#[verifier::rlimit(40)]
proof fn lemma_reads_select(
    ts: Tokens,
    w: Seq<TokenView>,
    s: SelectView,
    a: int,
    b: int,
    c: int,
    d: int,
)
    requires
        spells_parts(s, w, a, b, c, d),
        stands(ts, 0, w),
        ts[w.len() as int].0 == TokenView::Mark(Mark::Eof) || ts[w.len() as int].0
            == TokenView::Mark(Mark::Semicolon),
    ensures
        select_at(ts, 0) == Ok::<(SelectView, int), ErrorKind>((s, w.len() as int)),
        ts[0].0 == TokenView::Keyword(Keyword::Select),
{
    let n = w.len() as int;
    let z: int = 0;
    assert(ts[z + z].0 == w[z]);
    assert(ts[0 + a].0 == w[a]);
    assert(ts[0 + (a + 1)].0 == w[a + 1]);
    lemma_part(ts, 0, w, 1, a);
    lemma_part(ts, 0, w, a + 2, b);
    lemma_part(ts, 0, w, b, c);
    lemma_part(ts, 0, w, c, d);
    lemma_part(ts, 0, w, d, n);
    let limit = w.subrange(d, n);
    let order = w.subrange(c, d);
    let cond = w.subrange(b, c);
    if limit.len() > 0 {
        assert(limit[0] == w[d]);
        assert(ts[0 + d].0 == w[d]);
        assert(ts[0 + (d + 1)].0 == w[d + 1]);
        assert(limit[1] == w[d + 1]);
    }
    assert(ends_clause(ts[d].0) && ts[d].0 != TokenView::Mark(Mark::Comma));
    if order.len() > 0 {
        assert(order[0] == w[c]);
        assert(ts[0 + c].0 == w[c]);
        assert(w.subrange(c + 1, d) =~= order.skip(1));
        lemma_part(ts, 0, w, c + 1, d);
        lemma_reads_keys(ts, c + 1, order.skip(1), s.order_by, seq![]);
        assert(Seq::<(AstView, bool)>::empty() + s.order_by =~= s.order_by);
    } else {
        assert(s.order_by =~= seq![]);
    }
    assert(ends_clause(ts[c].0) && ts[c].0 != TokenView::Mark(Mark::Comma));
    if cond.len() > 0 {
        assert(cond[0] == w[b]);
        assert(ts[0 + b].0 == w[b]);
        assert(w.subrange(b + 1, c) =~= cond.skip(1));
        lemma_part(ts, 0, w, b + 1, c);
        lemma_reads_whole(ts, b + 1, cond.skip(1), s.selection->Some_0);
    }
    assert(ends_clause(ts[b].0));
    lemma_reads_alias(ts, a + 2, w.subrange(a + 2, b), s.table_alias);
    lemma_reads_items(ts, 1, w.subrange(1, a), s.projections, seq![]);
    assert(Seq::<ItemView>::empty() + s.projections =~= s.projections);
    assert(limit_at(ts, d) == Ok::<(Option<u64>, int), ErrorKind>((s.limit, n)));
    assert(order_at(ts, c) == Ok::<(Seq<(AstView, bool)>, int), ErrorKind>((s.order_by, d)));
    assert(where_at(ts, b) == Ok::<(Option<AstView>, int), ErrorKind>((s.selection, c)));
    assert(clauses_at(ts, b, s.projections, s.table, s.table_alias) == Ok::<
        (SelectView, int),
        ErrorKind,
    >((s, n)));
}

/// Every spelling of a statement is read as that statement.
pub proof fn spelled_statements_are_read(ts: Tokens, s: SelectView)
    requires
        spells_statement(s, Seq::new(ts.len(), |i: int| ts[i].0)),
    ensures
        statement_at(ts, 0) == Ok::<(SelectView, int), ErrorKind>((s, ts.len() - 1)),
{
    let w = Seq::new(ts.len(), |i: int| ts[i].0);
    let n = w.len() as int;
    if spells_select(s, w.take(n - 1)) {
        let body = w.take(n - 1);
        let (a, b, c, d) = choose|a: int, b: int, c: int, d: int| #[trigger]
            spells_parts(s, body, a, b, c, d);
        lemma_reads_select(ts, body, s, a, b, c, d);
    } else {
        let body = w.take(n - 2);
        let (a, b, c, d) = choose|a: int, b: int, c: int, d: int| #[trigger]
            spells_parts(s, body, a, b, c, d);
        lemma_reads_select(ts, body, s, a, b, c, d);
    }
}

/// Every spelling of an expression that no operator stands behind is read as
/// that expression.
pub proof fn spelled_expressions_are_read(ts: Tokens, p: int, w: Seq<TokenView>, e: AstView)
    requires
        spells(e, w),
        0 <= p,
        p + w.len() < ts.len(),
        forall|i: int| 0 <= i < w.len() ==> (#[trigger] ts[p + i]).0 == w[i],
        ts[p + w.len()].0 != TokenView::Keyword(Keyword::Is),
        forall|op: BinaryOp| ts[p + w.len()].0 != #[trigger] op_token(op),
    ensures
        expr_at(ts, p, 0) == Ok::<(AstView, int), ErrorKind>((e, p + w.len())),
{
    let t = ts[p + w.len()].0;
    if let Some(op) = operator(t) {
        assert(op_token(op) == t);
    }
    lemma_reads_whole(ts, p, w, e);
}

// ---------------------------------------------------------------------------
// Nothing else is read

/// The tokens from one place to another.
spec fn between(ts: Tokens, p: int, q: int) -> Seq<TokenView> {
    Seq::new((q - p) as nat, |i: int| ts[p + i].0)
}

/// Whether what was read from one place to another spells an expression that
/// binds by `power`, and the token behind it does not belong to it.
spec fn read_from(ts: Tokens, p: int, q: int, e: AstView, power: int) -> bool {
    &&& p < q < ts.len()
    &&& spells(e, between(ts, p, q))
    &&& power <= power_of(top(e))
    &&& token_rank(ts[q].0) <= open_end(e)
}

proof fn lemma_between(ts: Tokens, p: int, a: int, b: int, q: int)
    requires
        0 <= p <= a <= b <= q <= ts.len(),
    ensures
        between(ts, p, q).subrange(a - p, b - p) == between(ts, a, b),
        a < q ==> between(ts, p, q)[a - p] == ts[a].0,
        a == p ==> between(ts, p, q).take(b - p) == between(ts, a, b),
        b == q ==> between(ts, p, q).skip(a - p) == between(ts, a, b),
{
    let w = between(ts, p, q);
    assert(w.subrange(a - p, b - p) =~= between(ts, a, b));
    if a == p {
        assert(w.take(b - p) =~= between(ts, a, b));
    }
    if b == q {
        assert(w.skip(a - p) =~= between(ts, a, b));
    }
}

proof fn lemma_expr_is_spelled(ts: Tokens, p: int, power: int)
    requires
        0 <= p < ts.len(),
        ts.last().0 == TokenView::Mark(Mark::Eof),
        power <= 13,
    ensures
        expr_at(ts, p, power) matches Ok((e, q)) ==> {
            &&& read_from(ts, p, q, e, power)
            &&& power_of(token_rank(ts[q].0)) < power || power <= 0
        },
    decreases ts.len() - p, 2int,
{
    lemma_prefix_is_spelled(ts, p);
    if let Ok((left, q)) = prefix_at(ts, p) {
        if p < q < ts.len() {
            lemma_climbed_is_spelled(ts, p, q, left, power);
        }
    }
}

#[verifier::rlimit(40)]
proof fn lemma_prefix_is_spelled(ts: Tokens, p: int)
    requires
        0 <= p < ts.len(),
        ts.last().0 == TokenView::Mark(Mark::Eof),
    ensures
        prefix_at(ts, p) matches Ok((e, q)) ==> p < q ==> read_from(ts, p, q, e, 13),
    decreases ts.len() - p, 1int,
{
    let next = after(ts, p);
    if let Ok((e, q)) = prefix_at(ts, p) {
        if p < q {
            let w = between(ts, p, q);
            let z: int = 0;
            assert(next == p + 1);
            assert(w[z] == ts[p + z].0);
            lemma_ranks(ts[q].0);
            match ts[p].0 {
                TokenView::Mark(Mark::Minus) => {
                    lemma_expr_is_spelled(ts, next, 13);
                    lemma_between(ts, p, next, q, q);
                    lemma_tops(expr_at(ts, next, 13)->Ok_0.0, 8);
                    assert(spells(e, w));
                },
                TokenView::Keyword(Keyword::Not) => {
                    lemma_expr_is_spelled(ts, next, 5);
                    lemma_between(ts, p, next, q, q);
                    lemma_tops(expr_at(ts, next, 5)->Ok_0.0, 3);
                    assert(spells(e, w));
                    assert(token_rank(ts[q].0) <= 2);
                },
                TokenView::Mark(Mark::Plus) => {
                    lemma_expr_is_spelled(ts, next, 13);
                    lemma_between(ts, p, next, q, q);
                    lemma_tops(e, 8);
                    assert(spells(e, w));
                },
                TokenView::Mark(Mark::LParen) => {
                    lemma_expr_is_spelled(ts, next, 0);
                    let m = expr_at(ts, next, 0)->Ok_0.1;
                    assert(q == m + 1);
                    lemma_between(ts, p, next, m, q);
                    lemma_between(ts, p, m, q, q);
                    assert(spells(e, w));
                },
                TokenView::Keyword(Keyword::Cast) => {
                    let a = expected(ts, next, TokenView::Mark(Mark::LParen))->Ok_0;
                    lemma_expr_is_spelled(ts, a, 0);
                    let b = expr_at(ts, a, 0)->Ok_0.1;
                    lemma_between(ts, p, a, b, q);
                    lemma_between(ts, p, next, q, q);
                    lemma_between(ts, p, b, q, q);
                    lemma_cast_end(ts, a, b);
                    assert(q == b + 3);
                    lemma_between(ts, p, b + 1, q, q);
                    lemma_between(ts, p, b + 2, q, q);
                    assert(spells(e, w));
                },
                _ => {
                    assert(q == p + 1);
                    assert(w =~= seq![ts[p].0]);
                    assert(spells(e, w));
                },
            }
        }
    }
}

/// A cast's last tokens stand behind each other.
proof fn lemma_cast_end(ts: Tokens, a: int, b: int)
    requires
        0 < a < b < ts.len(),
        expr_at(ts, a, 0) matches Ok((e, q)) && q == b,
        expected(ts, a - 1, TokenView::Mark(Mark::LParen)) == Ok::<int, ErrorKind>(a),
        cast_at(ts, a - 1) is Ok,
        ts.last().0 == TokenView::Mark(Mark::Eof),
    ensures
        ({
            let q = cast_at(ts, a - 1)->Ok_0.1;
            &&& ts[b].0 == TokenView::Keyword(Keyword::As)
            &&& b + 1 < ts.len()
            &&& ts[b + 1].0 is Identifier
            &&& b + 2 < ts.len()
            &&& ts[b + 2].0 == TokenView::Mark(Mark::RParen)
            &&& q == b + 3
            &&& q < ts.len()
        }),
{
    let c = after(ts, b);
    assert(c == b + 1);
    let d = after(ts, c);
}

#[verifier::rlimit(40)]
proof fn lemma_climbed_is_spelled(ts: Tokens, start: int, p: int, left: AstView, power: int)
    requires
        0 <= start < p < ts.len(),
        ts.last().0 == TokenView::Mark(Mark::Eof),
        power <= 13,
        read_from(ts, start, p, left, power),
    ensures
        climbed(ts, p, left, power) matches Ok((e, q)) ==> {
            &&& read_from(ts, start, q, e, power)
            &&& power_of(token_rank(ts[q].0)) < power || power <= 0
        },
    decreases ts.len() - p, 0int,
{
    let next = after(ts, p);
    if ts[p].0 == TokenView::Keyword(Keyword::Is) {
        if 6 >= power {
            if let Ok((negated, q)) = null_test_at(ts, next) {
                if p < q < ts.len() {
                    let e = AstView::IsNull { expr: Box::new(left), negated };
                    let w = between(ts, start, q);
                    let m: int = if negated {
                        3
                    } else {
                        2
                    };
                    assert(q == p + m);
                    lemma_between(ts, start, start, p, q);
                    lemma_between(ts, start, p, q, q);
                    lemma_between(ts, start, p + 1, q, q);
                    lemma_between(ts, start, p + m - 1, q, q);
                    lemma_ranks(ts[q].0);
                    lemma_tops(left, 4);
                    assert(spells(e, w));
                    lemma_climbed_is_spelled(ts, start, q, e, power);
                }
            }
        }
    } else if let Some(op) = operator(ts[p].0) {
        lemma_rank(op);
        if binding(op).0 >= power && next > p {
            lemma_expr_is_spelled(ts, next, binding(op).1);
            if let Ok((right, q)) = expr_at(ts, next, binding(op).1) {
                if p < q < ts.len() {
                    let e = AstView::Binary { left: Box::new(left), op, right: Box::new(right) };
                    let w = between(ts, start, q);
                    lemma_between(ts, start, start, p, q);
                    lemma_between(ts, start, p, q, q);
                    lemma_between(ts, start, p + 1, q, q);
                    let k = p - start;
                    assert(w[k] == op_token(op));
                    assert(spells(left, w.take(k)));
                    assert(spells(right, w.skip(k + 1)));
                    lemma_ranks(ts[q].0);
                    lemma_tops(left, rank(op));
                    lemma_tops(right, rank(op));
                    assert(spells(e, w));
                    lemma_climbed_is_spelled(ts, start, q, e, power);
                }
            }
        }
    }
}

/// A rank is at least another where its power is.
proof fn lemma_tops(e: AstView, r: int)
    requires
        1 <= r <= 8,
    ensures
        power_of(r) <= power_of(top(e)) ==> r <= top(e),
        power_of(r) + 1 <= power_of(top(e)) ==> r < top(e),
{
    lemma_top(e);
}

proof fn lemma_alias_is_spelled(ts: Tokens, p: int)
    requires
        0 <= p < ts.len(),
        ts.last().0 == TokenView::Mark(Mark::Eof),
    ensures
        alias_at(ts, p) matches Ok((alias, q)) ==> p <= q < ts.len() && spells_alias(
            alias,
            between(ts, p, q),
        ),
{
    if let Ok((alias, q)) = alias_at(ts, p) {
        let w = between(ts, p, q);
        match alias {
            None => {},
            Some(s) => {
                if ts[p].0 == TokenView::Keyword(Keyword::As) {
                    assert(q == p + 2);
                    assert(w =~= seq![
                        TokenView::Keyword(Keyword::As),
                        TokenView::Identifier(s),
                    ]);
                } else {
                    assert(q == p + 1);
                    assert(w =~= seq![TokenView::Identifier(s)]);
                }
            },
        }
    }
}

proof fn lemma_item_is_spelled(ts: Tokens, p: int)
    requires
        0 <= p < ts.len(),
        ts.last().0 == TokenView::Mark(Mark::Eof),
    ensures
        item_at(ts, p) matches Ok((item, q)) ==> p < q < ts.len() && spells_item(
            item,
            between(ts, p, q),
        ),
{
    if let Ok((item, q)) = item_at(ts, p) {
        let w = between(ts, p, q);
        if ts[p].0 == TokenView::Mark(Mark::Star) {
            assert(w =~= seq![TokenView::Mark(Mark::Star)]);
        } else {
            lemma_expr_is_spelled(ts, p, 0);
            let m = expr_at(ts, p, 0)->Ok_0.1;
            lemma_alias_is_spelled(ts, m);
            lemma_between(ts, p, p, m, q);
            lemma_between(ts, p, m, q, q);
            let k = m - p;
            assert(spells(item->Some_0.0, w.take(k)));
        }
    }
}

#[verifier::rlimit(40)]
proof fn lemma_items_are_spelled(ts: Tokens, p: int, done: Seq<ItemView>)
    requires
        0 <= p < ts.len(),
        ts.last().0 == TokenView::Mark(Mark::Eof),
    ensures
        items_at(ts, p, done) matches Ok((items, q)) ==> {
            &&& p < q < ts.len()
            &&& items.len() > done.len()
            &&& items.take(done.len() as int) == done
            &&& spells_items(items.skip(done.len() as int), between(ts, p, q))
        },
    decreases ts.len() - p,
{
    lemma_item_is_spelled(ts, p);
    if let Ok((items, q)) = items_at(ts, p, done) {
        let (item, m) = item_at(ts, p)->Ok_0;
        let w = between(ts, p, q);
        let n = done.len() as int;
        if ts[m].0 == TokenView::Mark(Mark::Comma) {
            lemma_items_are_spelled(ts, m + 1, done.push(item));
            lemma_between(ts, p, p, m, q);
            lemma_between(ts, p, m, q, q);
            lemma_between(ts, p, m + 1, q, q);
            let k = m - p;
            assert(w[k] == TokenView::Mark(Mark::Comma));
            let own = items.skip(n);
            assert(items[n] == items.take(n + 1)[n]);
            assert(own[0] == item);
            assert(own.skip(1) =~= items.skip(n + 1));
            assert(items.take(n) =~= items.take(n + 1).take(n));
            assert(done.push(item).take(n) =~= done);
            assert(spells_items(own, w));
        } else {
            assert(items == done.push(item));
            assert(items.take(n) =~= done);
            assert(items.skip(n) =~= seq![item]);
        }
    }
}

proof fn lemma_key_is_spelled(ts: Tokens, p: int)
    requires
        0 <= p < ts.len(),
        ts.last().0 == TokenView::Mark(Mark::Eof),
    ensures
        sort_key_at(ts, p) matches Ok((key, q)) ==> p < q < ts.len() && spells_key(
            key,
            between(ts, p, q),
        ),
{
    lemma_expr_is_spelled(ts, p, 0);
    if let Ok((key, q)) = sort_key_at(ts, p) {
        let m = expr_at(ts, p, 0)->Ok_0.1;
        let w = between(ts, p, q);
        lemma_between(ts, p, p, m, q);
        if q > m {
            assert(q == m + 1);
            assert(w.drop_last() =~= w.take(m - p));
        }
    }
}

#[verifier::rlimit(40)]
proof fn lemma_keys_are_spelled(ts: Tokens, p: int, done: Seq<(AstView, bool)>)
    requires
        0 <= p < ts.len(),
        ts.last().0 == TokenView::Mark(Mark::Eof),
    ensures
        sort_keys_at(ts, p, done) matches Ok((keys, q)) ==> {
            &&& p < q < ts.len()
            &&& keys.len() > done.len()
            &&& keys.take(done.len() as int) == done
            &&& spells_keys(keys.skip(done.len() as int), between(ts, p, q))
        },
    decreases ts.len() - p,
{
    lemma_key_is_spelled(ts, p);
    if let Ok((keys, q)) = sort_keys_at(ts, p, done) {
        let (key, m) = sort_key_at(ts, p)->Ok_0;
        let w = between(ts, p, q);
        let n = done.len() as int;
        if ts[m].0 == TokenView::Mark(Mark::Comma) {
            lemma_keys_are_spelled(ts, m + 1, done.push(key));
            lemma_between(ts, p, p, m, q);
            lemma_between(ts, p, m, q, q);
            lemma_between(ts, p, m + 1, q, q);
            let k = m - p;
            assert(w[k] == TokenView::Mark(Mark::Comma));
            let own = keys.skip(n);
            assert(keys[n] == keys.take(n + 1)[n]);
            assert(own[0] == key);
            assert(own.skip(1) =~= keys.skip(n + 1));
            assert(keys.take(n) =~= keys.take(n + 1).take(n));
            assert(done.push(key).take(n) =~= done);
            assert(spells_keys(own, w));
        } else {
            assert(keys == done.push(key));
            assert(keys.take(n) =~= done);
            assert(keys.skip(n) =~= seq![key]);
        }
    }
}

#[verifier::rlimit(40)]
proof fn lemma_clauses_are_spelled(
    ts: Tokens,
    p: int,
    projections: Seq<ItemView>,
    table: Seq<char>,
    alias: Option<Seq<char>>,
) -> (cuts: (int, int))
    requires
        0 <= p < ts.len(),
        ts.last().0 == TokenView::Mark(Mark::Eof),
        clauses_at(ts, p, projections, table, alias) is Ok,
    ensures
        ({
            let (s, q) = clauses_at(ts, p, projections, table, alias)->Ok_0;
            &&& p <= cuts.0 <= cuts.1 <= q < ts.len()
            &&& spells_where(s.selection, between(ts, p, cuts.0))
            &&& spells_order(s.order_by, between(ts, cuts.0, cuts.1))
            &&& spells_limit(s.limit, between(ts, cuts.1, q))
        }),
{
    let (s, q) = clauses_at(ts, p, projections, table, alias)->Ok_0;
    let a = where_at(ts, p)->Ok_0.1;
    if s.selection is Some {
        lemma_expr_is_spelled(ts, p + 1, 0);
        lemma_between(ts, p, p + 1, a, a);
        lemma_between(ts, p, p, a, a);
    }
    let b = order_at(ts, a)->Ok_0.1;
    if ts[a].0 == TokenView::Keyword(Keyword::OrderBy) {
        lemma_keys_are_spelled(ts, a + 1, seq![]);
        assert(s.order_by.skip(0) =~= s.order_by);
        lemma_between(ts, a, a + 1, b, b);
        lemma_between(ts, a, a, b, b);
    }
    if s.limit is Some {
        assert(q == b + 2);
        lemma_between(ts, b, b, q, q);
        lemma_between(ts, b, b + 1, q, q);
    }
    (a, b)
}

#[verifier::rlimit(40)]
proof fn lemma_select_is_spelled(ts: Tokens)
    requires
        ts.len() > 0,
        ts.last().0 == TokenView::Mark(Mark::Eof),
        select_at(ts, 0) is Ok,
    ensures
        0 <= select_at(ts, 0)->Ok_0.1 < ts.len(),
        spells_select(select_at(ts, 0)->Ok_0.0, between(ts, 0, select_at(ts, 0)->Ok_0.1)),
{
    let (s, q) = select_at(ts, 0)->Ok_0;
    lemma_items_are_spelled(ts, 1, seq![]);
    let (items, a) = items_at(ts, 1, seq![])->Ok_0;
    assert(items.skip(0) =~= items);
    let b = alias_at(ts, a + 2)->Ok_0.1;
    lemma_alias_is_spelled(ts, a + 2);
    let (c, d) = lemma_clauses_are_spelled(ts, b, s.projections, s.table, s.table_alias);
    let body = between(ts, 0, q);
    lemma_between(ts, 0, 1, a, q);
    lemma_between(ts, 0, a + 2, b, q);
    lemma_between(ts, 0, b, c, q);
    lemma_between(ts, 0, c, d, q);
    lemma_between(ts, 0, d, q, q);
    assert(spells_parts(s, body, a, b, c, d));
}

/// Whatever is read as a statement spells it, where the tokens end once.
#[verifier::rlimit(40)]
pub proof fn read_statements_are_spelled(ts: Tokens)
    requires
        ts.len() > 0,
        ts.last().0 == TokenView::Mark(Mark::Eof),
        forall|i: int|
            0 <= i < ts.len() - 1 ==> (#[trigger] ts[i]).0 != TokenView::Mark(Mark::Eof),
    ensures
        statement_at(ts, 0) matches Ok((s, q)) ==> spells_statement(
            s,
            Seq::new(ts.len(), |i: int| ts[i].0),
        ),
{
    if let Ok((s, end)) = statement_at(ts, 0) {
        let w = Seq::new(ts.len(), |i: int| ts[i].0);
        let n = ts.len() as int;
        let q = select_at(ts, 0)->Ok_0.1;
        lemma_select_is_spelled(ts);
        let body = w.take(q);
        assert(body =~= between(ts, 0, q));
        if ts[q].0 == TokenView::Mark(Mark::Semicolon) {
            assert(q + 1 == n - 1);
            assert(w.take(n - 2) =~= body);
        } else {
            assert(q == n - 1);
        }
    }
}

} // verus!
