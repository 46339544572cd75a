//! Where a statement cannot be read, the error points at one of its tokens.

use vstd::prelude::*;

use crate::error::ErrorKind;
use crate::sql::ast::{AstView, ItemView};
use crate::sql::parser::{
    after, alias_at, binding, cast_at, clauses_at, climbed, ended, expected, expr_at, item_at, items_at,
    limit_at, name_at, nested_at, null_test_at, operator, order_at, prefix_at, select_at, sort_key_at,
    sort_keys_at, statement_at, type_at, where_at, wrong_at, Tokens, NOT, SIGN,
};
use crate::sql::token::{Keyword, Mark, TokenView};

verus! {

/// Whether an error is a syntax error at one of the tokens.
pub open spec fn at_a_token(ts: Tokens, k: ErrorKind) -> bool {
    k matches ErrorKind::Syntax(span, message) && exists|i: int|
        0 <= i < ts.len() && (#[trigger] ts[i]).1 == span
}

/// Whether reading ended at one of the tokens, well or with an error there.
pub open spec fn ends_at_a_token<T>(ts: Tokens, r: Result<(T, int), ErrorKind>) -> bool {
    match r {
        Ok((_, q)) => 0 <= q < ts.len(),
        Err(k) => at_a_token(ts, k),
    }
}

proof fn lemma_wrong(ts: Tokens, p: int)
    requires
        0 <= p < ts.len(),
    ensures
        forall|m: Seq<char>| at_a_token(ts, #[trigger] wrong_at(ts, p, m)),
        0 <= after(ts, p) < ts.len(),
{
    assert forall|m: Seq<char>| at_a_token(ts, #[trigger] wrong_at(ts, p, m)) by {
        assert(ts[p].1 == ts[p].1);
    }
}

proof fn lemma_expected(ts: Tokens, p: int, t: TokenView)
    requires
        0 <= p < ts.len(),
    ensures
        match expected(ts, p, t) {
            Ok(q) => 0 <= q < ts.len() && p <= q,
            Err(k) => at_a_token(ts, k),
        },
{
    lemma_wrong(ts, p);
}

proof fn lemma_expr(ts: Tokens, p: int, power: int)
    requires
        0 <= p < ts.len(),
    ensures
        ends_at_a_token(ts, expr_at(ts, p, power)),
    decreases ts.len() - p, 2int,
{
    lemma_wrong(ts, p);
    lemma_prefix(ts, p);
    if let Ok((left, q)) = prefix_at(ts, p) {
        if q > p && q < ts.len() {
            lemma_climbed(ts, q, left, power);
        }
    }
}

proof fn lemma_prefix(ts: Tokens, p: int)
    requires
        0 <= p < ts.len(),
    ensures
        ends_at_a_token(ts, prefix_at(ts, p)),
    decreases ts.len() - p, 1int,
{
    lemma_wrong(ts, p);
    let next = after(ts, p);
    if next > p {
        lemma_expr(ts, next, SIGN as int);
        lemma_expr(ts, next, NOT as int);
        lemma_nested(ts, next);
        lemma_cast(ts, next);
    }
}

proof fn lemma_nested(ts: Tokens, p: int)
    requires
        0 <= p < ts.len(),
    ensures
        ends_at_a_token(ts, nested_at(ts, p)),
    decreases ts.len() - p, 3int,
{
    lemma_expr(ts, p, 0);
    if let Ok((e, q)) = expr_at(ts, p, 0) {
        lemma_expected(ts, q, TokenView::Mark(Mark::RParen));
    }
}

proof fn lemma_type(ts: Tokens, p: int)
    requires
        0 <= p < ts.len(),
    ensures
        ends_at_a_token(ts, type_at(ts, p)),
{
    lemma_wrong(ts, p);
}

proof fn lemma_cast(ts: Tokens, p: int)
    requires
        0 <= p < ts.len(),
    ensures
        ends_at_a_token(ts, cast_at(ts, p)),
    decreases ts.len() - p, 3int,
{
    lemma_wrong(ts, p);
    lemma_expected(ts, p, TokenView::Mark(Mark::LParen));
    if let Ok(a) = expected(ts, p, TokenView::Mark(Mark::LParen)) {
        if a > p {
            lemma_expr(ts, a, 0);
            if let Ok((e, b)) = expr_at(ts, a, 0) {
                lemma_expected(ts, b, TokenView::Keyword(Keyword::As));
                if let Ok(c) = expected(ts, b, TokenView::Keyword(Keyword::As)) {
                    lemma_type(ts, c);
                    if let Ok((to, d)) = type_at(ts, c) {
                        lemma_expected(ts, d, TokenView::Mark(Mark::RParen));
                    }
                }
            }
        }
    }
}

proof fn lemma_null_test(ts: Tokens, p: int)
    requires
        0 <= p < ts.len(),
    ensures
        ends_at_a_token(ts, null_test_at(ts, p)),
{
    lemma_wrong(ts, p);
    lemma_expected(ts, p, TokenView::Keyword(Keyword::Null));
    lemma_expected(ts, after(ts, p), TokenView::Keyword(Keyword::Null));
}

proof fn lemma_climbed(ts: Tokens, p: int, left: AstView, power: int)
    requires
        0 <= p < ts.len(),
    ensures
        ends_at_a_token(ts, climbed(ts, p, left, power)),
    decreases ts.len() - p, 0int,
{
    lemma_wrong(ts, p);
    let next = after(ts, p);
    if ts[p].0 == TokenView::Keyword(Keyword::Is) {
        lemma_null_test(ts, next);
        if let Ok((negated, q)) = null_test_at(ts, next) {
            if q > p && q < ts.len() {
                lemma_climbed(ts, q, AstView::IsNull { expr: Box::new(left), negated }, power);
            }
        }
    } else if next > p {
        match operator(ts[p].0) {
            None => {},
            Some(op) => {
                lemma_expr(ts, next, binding(op).1);
                if let Ok((right, q)) = expr_at(ts, next, binding(op).1) {
                    if q > p && q < ts.len() {
                        lemma_climbed(
                            ts,
                            q,
                            AstView::Binary { left: Box::new(left), op, right: Box::new(right) },
                            power,
                        );
                    }
                }
            },
        }
    }
}

proof fn lemma_alias(ts: Tokens, p: int)
    requires
        0 <= p < ts.len(),
    ensures
        ends_at_a_token(ts, alias_at(ts, p)),
        ends_at_a_token(ts, name_at(ts, p)),
{
    lemma_wrong(ts, p);
    lemma_wrong(ts, after(ts, p));
}

proof fn lemma_items(ts: Tokens, p: int, done: Seq<ItemView>)
    requires
        0 <= p < ts.len(),
    ensures
        ends_at_a_token(ts, items_at(ts, p, done)),
    decreases ts.len() - p,
{
    lemma_wrong(ts, p);
    lemma_expr(ts, p, 0);
    if let Ok((e, q)) = expr_at(ts, p, 0) {
        lemma_alias(ts, q);
    }
    assert(ends_at_a_token(ts, item_at(ts, p)));
    if let Ok((item, q)) = item_at(ts, p) {
        if q > p && after(ts, q) > q {
            lemma_wrong(ts, q);
            lemma_items(ts, after(ts, q), done.push(item));
        }
    }
}

proof fn lemma_keys(ts: Tokens, p: int, done: Seq<(AstView, bool)>)
    requires
        0 <= p < ts.len(),
    ensures
        ends_at_a_token(ts, sort_keys_at(ts, p, done)),
    decreases ts.len() - p,
{
    lemma_expr(ts, p, 0);
    if let Ok((e, q)) = expr_at(ts, p, 0) {
        lemma_wrong(ts, q);
    }
    assert(ends_at_a_token(ts, sort_key_at(ts, p)));
    if let Ok((key, q)) = sort_key_at(ts, p) {
        if q > p && after(ts, q) > q {
            lemma_wrong(ts, q);
            lemma_keys(ts, after(ts, q), done.push(key));
        }
    }
}

proof fn lemma_clauses(ts: Tokens, p: int)
    requires
        0 <= p < ts.len(),
    ensures
        ends_at_a_token(ts, where_at(ts, p)),
        ends_at_a_token(ts, order_at(ts, p)),
        ends_at_a_token(ts, limit_at(ts, p)),
{
    lemma_wrong(ts, p);
    let next = after(ts, p);
    lemma_wrong(ts, next);
    lemma_expr(ts, next, 0);
    lemma_keys(ts, next, seq![]);
}

proof fn lemma_select(ts: Tokens, p: int)
    requires
        0 <= p < ts.len(),
    ensures
        ends_at_a_token(ts, select_at(ts, p)),
{
    let select = TokenView::Keyword(Keyword::Select);
    let from = TokenView::Keyword(Keyword::From);
    lemma_expected(ts, p, select);
    if let Ok(a) = expected(ts, p, select) {
        lemma_items(ts, a, seq![]);
        if let Ok((items, b)) = items_at(ts, a, seq![]) {
            lemma_expected(ts, b, from);
            if let Ok(c) = expected(ts, b, from) {
                lemma_alias(ts, c);
                if let Ok((table, d)) = name_at(ts, c) {
                    lemma_alias(ts, d);
                    if let Ok((alias, e)) = alias_at(ts, d) {
                        lemma_clauses(ts, e);
                        if let Ok((selection, f)) = where_at(ts, e) {
                            lemma_clauses(ts, f);
                            if let Ok((order, g)) = order_at(ts, f) {
                                lemma_clauses(ts, g);
                            }
                        }
                        assert(ends_at_a_token(ts, clauses_at(ts, e, items, table, alias)));
                    }
                }
            }
        }
    }
}

/// Where a statement or an expression cannot be read, the error is a syntax
/// error whose place is that of one of the tokens.
pub proof fn syntax_errors_point_at_tokens(ts: Tokens, p: int, power: int)
    requires
        0 <= p < ts.len(),
    ensures
        statement_at(ts, p) matches Err(k) ==> at_a_token(ts, k),
        expr_at(ts, p, power) matches Err(k) ==> at_a_token(ts, k),
{
    lemma_wrong(ts, p);
    lemma_expr(ts, p, power);
    lemma_select(ts, p);
    if let Ok((select, q)) = select_at(ts, p) {
        lemma_wrong(ts, q);
        lemma_wrong(ts, after(ts, q));
    }
}

/// A token that should have been another one is told apart in the message: it
/// says what was expected and what was found, at the place where it was found.
pub proof fn errors_say_what_was_found(ts: Tokens, p: int, t: TokenView)
    requires
        0 <= p < ts.len(),
        ts[p].0 != t,
    ensures
        expected(ts, p, t) == Err::<int, ErrorKind>(
            ErrorKind::Syntax(
                ts[p].1,
                "expected "@ + t.text() + ", found "@ + ts[p].0.text(),
            ),
        ),
{
}

/// Tokens are read to an end of their own: where they lack one, it is put behind
/// them, at the place where the last of them ends. Nothing else changes.
pub proof fn tokens_get_an_end(ts: Tokens)
    ensures
        ended(ts).len() > 0,
        ended(ts).last().0 == TokenView::Mark(Mark::Eof),
        ts.len() > 0 && ts.last().0 == TokenView::Mark(Mark::Eof) ==> ended(ts) == ts,
        !(ts.len() > 0 && ts.last().0 == TokenView::Mark(Mark::Eof)) ==> {
            let at = ended(ts).last().1;
            &&& ended(ts).drop_last() == ts
            &&& at.start == at.end
            &&& ts.len() > 0 ==> at.start == ts.last().1.end
            &&& ts.len() == 0 ==> at.start == 0
        },
{
    assert(ts.push(ended(ts).last()).drop_last() =~= ts);
}

} // verus!
