//! How tokens are written, and how literals are read.

use vstd::prelude::*;
use vstd::utf8::{char_is_scalar, encode_scalar, encode_utf8};

use crate::error::ErrorKind;
use crate::float64::{nearest, Float64};
use crate::float_text::{body_start, exponent, fraction_start, mantissa, power10, run_end};
use crate::sql::lexer::{
    at, byte_len, byte_pos, digits_end, is_space, is_word, lexed, line_end, mark_at, quoted,
    skipped, starts_word, token_at, tokens_from, word_end,
};
use crate::sql::parser::{number_value, row_count, type_named};
use crate::sql::span::Span;
use crate::sql::token::{keyword_of, Keyword, Mark, TokenView};
use crate::text::{all_digits, decimal_text, digits_value, is_digit, lowered};
use crate::types::data_type::DataType;
use crate::types::value::ValueView;
use crate::types::value_laws::lemma_decimal_read;

verus! {

// ---------------------------------------------------------------------------
// Words

/// A word is a keyword exactly when it is the keyword's name in some case.
/// `ORDER BY` is two words and no word's name.
pub proof fn keywords_are_their_names(w: Seq<char>, k: Keyword)
    ensures
        keyword_of(w) == Some(k) <==> k != Keyword::OrderBy && lowered(w) == lowered(k.spec_name()),
{
    lemma_keyword_names();
    lemma_names_differ();
}

proof fn lemma_names_differ()
    ensures
        "select"@.len() == 6,
        "from"@.len() == 4,
        "where"@.len() == 5,
        "limit"@.len() == 5,
        "as"@.len() == 2,
        "asc"@.len() == 3,
        "desc"@.len() == 4,
        "and"@.len() == 3,
        "or"@.len() == 2,
        "not"@.len() == 3,
        "is"@.len() == 2,
        "null"@.len() == 4,
        "true"@.len() == 4,
        "false"@.len() == 5,
        "cast"@.len() == 4,
        "from"@ != "desc"@,
        "from"@ != "null"@,
        "from"@ != "true"@,
        "from"@ != "cast"@,
        "where"@ != "limit"@,
        "where"@ != "false"@,
        "limit"@ != "false"@,
        "as"@ != "or"@,
        "as"@ != "is"@,
        "asc"@ != "and"@,
        "asc"@ != "not"@,
        "desc"@ != "null"@,
        "desc"@ != "true"@,
        "desc"@ != "cast"@,
        "and"@ != "not"@,
        "or"@ != "is"@,
        "null"@ != "true"@,
        "null"@ != "cast"@,
        "true"@ != "cast"@,
{
    reveal_strlit("select");
    reveal_strlit("from");
    reveal_strlit("where");
    reveal_strlit("limit");
    reveal_strlit("as");
    reveal_strlit("asc");
    reveal_strlit("desc");
    reveal_strlit("and");
    reveal_strlit("or");
    reveal_strlit("not");
    reveal_strlit("is");
    reveal_strlit("null");
    reveal_strlit("true");
    reveal_strlit("false");
    reveal_strlit("cast");
    assert("from"@[0] != "desc"@[0]);
    assert("from"@[0] != "null"@[0]);
    assert("from"@[0] != "true"@[0]);
    assert("from"@[0] != "cast"@[0]);
    assert("where"@[0] != "limit"@[0]);
    assert("where"@[0] != "false"@[0]);
    assert("limit"@[0] != "false"@[0]);
    assert("as"@[0] != "or"@[0]);
    assert("as"@[0] != "is"@[0]);
    assert("asc"@[1] != "and"@[1]);
    assert("asc"@[0] != "not"@[0]);
    assert("desc"@[0] != "null"@[0]);
    assert("desc"@[0] != "true"@[0]);
    assert("desc"@[0] != "cast"@[0]);
    assert("and"@[0] != "not"@[0]);
    assert("or"@[0] != "is"@[0]);
    assert("null"@[0] != "true"@[0]);
    assert("null"@[0] != "cast"@[0]);
    assert("true"@[0] != "cast"@[0]);
}

proof fn lemma_keyword_names()
    ensures
        lowered("SELECT"@) == "select"@,
        lowered("FROM"@) == "from"@,
        lowered("WHERE"@) == "where"@,
        lowered("LIMIT"@) == "limit"@,
        lowered("AS"@) == "as"@,
        lowered("ASC"@) == "asc"@,
        lowered("DESC"@) == "desc"@,
        lowered("AND"@) == "and"@,
        lowered("OR"@) == "or"@,
        lowered("NOT"@) == "not"@,
        lowered("IS"@) == "is"@,
        lowered("NULL"@) == "null"@,
        lowered("TRUE"@) == "true"@,
        lowered("FALSE"@) == "false"@,
        lowered("CAST"@) == "cast"@,
{
    reveal_strlit("SELECT");
    reveal_strlit("select");
    assert(lowered("SELECT"@) =~= "select"@);
    reveal_strlit("FROM");
    reveal_strlit("from");
    assert(lowered("FROM"@) =~= "from"@);
    reveal_strlit("WHERE");
    reveal_strlit("where");
    assert(lowered("WHERE"@) =~= "where"@);
    reveal_strlit("LIMIT");
    reveal_strlit("limit");
    assert(lowered("LIMIT"@) =~= "limit"@);
    reveal_strlit("AS");
    reveal_strlit("as");
    assert(lowered("AS"@) =~= "as"@);
    reveal_strlit("ASC");
    reveal_strlit("asc");
    assert(lowered("ASC"@) =~= "asc"@);
    reveal_strlit("DESC");
    reveal_strlit("desc");
    assert(lowered("DESC"@) =~= "desc"@);
    reveal_strlit("AND");
    reveal_strlit("and");
    assert(lowered("AND"@) =~= "and"@);
    reveal_strlit("OR");
    reveal_strlit("or");
    assert(lowered("OR"@) =~= "or"@);
    reveal_strlit("NOT");
    reveal_strlit("not");
    assert(lowered("NOT"@) =~= "not"@);
    reveal_strlit("IS");
    reveal_strlit("is");
    assert(lowered("IS"@) =~= "is"@);
    reveal_strlit("NULL");
    reveal_strlit("null");
    assert(lowered("NULL"@) =~= "null"@);
    reveal_strlit("TRUE");
    reveal_strlit("true");
    assert(lowered("TRUE"@) =~= "true"@);
    reveal_strlit("FALSE");
    reveal_strlit("false");
    assert(lowered("FALSE"@) =~= "false"@);
    reveal_strlit("CAST");
    reveal_strlit("cast");
    assert(lowered("CAST"@) =~= "cast"@);
}

proof fn lemma_word_run(s: Seq<char>, p: int, q: int)
    requires
        0 <= p <= q <= s.len(),
        forall|i: int| p <= i < q ==> is_word(#[trigger] s[i]),
        q < s.len() ==> !is_word(s[q]),
    ensures
        word_end(s, p) == q,
    decreases q - p,
{
    if p < q {
        assert(is_word(s[p]));
        lemma_word_run(s, p + 1, q);
    }
}

/// Letters, digits and underscores that start with no digit and have no more of
/// their kind behind them are one token: the keyword that they name, or an
/// identifier.
pub proof fn words_are_read_whole(s: Seq<char>, p: int, q: int)
    requires
        0 <= p < q <= s.len(),
        starts_word(s[p]),
        forall|i: int| p <= i < q ==> is_word(#[trigger] s[i]),
        q < s.len() ==> !is_word(s[q]),
        lowered(s.subrange(p, q)) != "order"@,
    ensures
        ({
            let word = s.subrange(p, q);
            token_at(s, p) == Ok::<(TokenView, int), ErrorKind>(
                (
                    match keyword_of(word) {
                        Some(k) => TokenView::Keyword(k),
                        None => TokenView::Identifier(word),
                    },
                    q,
                ),
            )
        }),
{
    lemma_word_run(s, p, q);
}

/// The words `ORDER` and `BY`, in any case and with spaces or comments between
/// them, are one token.
pub proof fn order_by_is_one_token(s: Seq<char>, p: int, q: int, from: int, to: int)
    requires
        0 <= p < q <= from < to <= s.len(),
        starts_word(s[p]),
        forall|i: int| p <= i < q ==> is_word(#[trigger] s[i]),
        q < s.len() ==> !is_word(s[q]),
        lowered(s.subrange(p, q)) == "order"@,
        skipped(s, q) == from,
        forall|i: int| from <= i < to ==> is_word(#[trigger] s[i]),
        to < s.len() ==> !is_word(s[to]),
        lowered(s.subrange(from, to)) == "by"@,
    ensures
        token_at(s, p) == Ok::<(TokenView, int), ErrorKind>(
            (TokenView::Keyword(Keyword::OrderBy), to),
        ),
{
    lemma_word_run(s, p, q);
    lemma_word_run(s, from, to);
}

// ---------------------------------------------------------------------------
// Spaces and comments

/// Spaces between tokens, and comments from two dashes to the end of the line,
/// are passed over.
pub proof fn spaces_and_comments_are_passed_over(s: Seq<char>, p: int, q: int)
    requires
        0 <= p < s.len(),
    ensures
        is_space(s[p]) ==> skipped(s, p) == skipped(s, p + 1),
        p + 1 < q < s.len() && s[p] == '-' && s[p + 1] == '-' && s[q] == '\n' && (forall|i: int|
            p + 2 <= i < q ==> #[trigger] s[i] != '\n') ==> skipped(s, p) == skipped(s, q + 1),
        p + 1 < s.len() && s[p] == '-' && s[p + 1] == '-' && (forall|i: int|
            p + 2 <= i < s.len() ==> #[trigger] s[i] != '\n') ==> skipped(s, p) == s.len(),
        !is_space(s[p]) && !(s[p] == '-' && p + 1 < s.len() && s[p + 1] == '-') ==> skipped(s, p)
            == p,
{
    if !is_space(s[p]) && s[p] == '-' && p + 1 < s.len() && s[p + 1] == '-' {
        if p + 1 < q < s.len() && s[q] == '\n' && (forall|i: int|
            p + 2 <= i < q ==> #[trigger] s[i] != '\n') {
            lemma_line(s, p + 2, q);
        }
        if forall|i: int| p + 2 <= i < s.len() ==> #[trigger] s[i] != '\n' {
            lemma_last_line(s, p + 2);
            assert(skipped(s, s.len() as int) == s.len());
        }
    }
}

proof fn lemma_line(s: Seq<char>, p: int, q: int)
    requires
        0 <= p <= q < s.len(),
        s[q] == '\n',
        forall|i: int| p <= i < q ==> #[trigger] s[i] != '\n',
    ensures
        line_end(s, p) == q + 1,
    decreases q - p,
{
    if p < q {
        assert(s[p] != '\n');
        lemma_line(s, p + 1, q);
    }
}

proof fn lemma_last_line(s: Seq<char>, p: int)
    requires
        0 <= p <= s.len(),
        forall|i: int| p <= i < s.len() ==> #[trigger] s[i] != '\n',
    ensures
        line_end(s, p) == s.len(),
    decreases s.len() - p,
{
    if p < s.len() {
        assert(s[p] != '\n');
        lemma_last_line(s, p + 1);
    }
}

/// The tokens of a text are the token that comes first and those behind it; a
/// text of nothing but spaces has none. The end comes last.
pub proof fn tokens_come_one_by_one(s: Seq<char>, p: int)
    requires
        0 <= p <= s.len(),
        p <= skipped(s, p) <= s.len(),
    ensures
        ({
            let q = skipped(s, p);
            match lexed(s, p) {
                Ok(all) => {
                    &&& all.len() > 0
                    &&& all.last().0 == TokenView::Mark(Mark::Eof)
                    &&& q == s.len() ==> all.len() == 1
                    &&& q < s.len() ==> {
                        &&& token_at(s, q) is Ok
                        &&& all[0].0 == token_at(s, q)->Ok_0.0
                        &&& all[0].1.start == byte_pos(s, q as nat) as usize
                        &&& all[0].1.end == byte_pos(s, token_at(s, q)->Ok_0.1 as nat) as usize
                        &&& lexed(s, token_at(s, q)->Ok_0.1) == Ok::<
                            Seq<(TokenView, crate::sql::span::Span)>,
                            ErrorKind,
                        >(all.skip(1))
                    }
                },
                Err(k) => q < s.len() && (token_at(s, q) == Err::<(TokenView, int), ErrorKind>(k)
                    || (token_at(s, q) is Ok && lexed(s, token_at(s, q)->Ok_0.1) == Err::<
                    Seq<(TokenView, crate::sql::span::Span)>,
                    ErrorKind,
                >(k))),
            }
        }),
{
    let q = skipped(s, p);
    if q < s.len() {
        crate::sql::lexer::lemma_token_at(s, q);
        if let Ok((t, end)) = token_at(s, q) {
            if let Ok(rest) = tokens_from(s, end) {
                let all = lexed(s, p)->Ok_0;
                assert(all.skip(1) =~= lexed(s, end)->Ok_0);
            }
        }
    }
}

// ---------------------------------------------------------------------------
// Strings

/// A text with each of its quotes written twice.
pub open spec fn escaped(text: Seq<char>) -> Seq<char>
    decreases text.len(),
{
    if text.len() == 0 {
        seq![]
    } else if text[0] == '\'' {
        seq!['\'', '\''] + escaped(text.skip(1))
    } else {
        seq![text[0]] + escaped(text.skip(1))
    }
}

proof fn lemma_quoted_text(s: Seq<char>, p: int, text: Seq<char>)
    requires
        0 <= p,
        p + escaped(text).len() < s.len(),
        s.subrange(p, p + escaped(text).len()) == escaped(text),
        s[p + escaped(text).len()] == '\'',
        p + escaped(text).len() + 1 < s.len() ==> s[p + escaped(text).len() + 1] != '\'',
    ensures
        quoted(s, p) == Some((text, p + escaped(text).len() + 1)),
    decreases text.len(),
{
    let e = escaped(text);
    let n = e.len() as int;
    if text.len() == 0 {
        assert(text =~= seq![]);
    } else {
        let rest = text.skip(1);
        let k: int = if text[0] == '\'' {
            2
        } else {
            1
        };
        assert(e.skip(k) =~= escaped(rest));
        assert(s.subrange(p + k, p + n) =~= s.subrange(p, p + n).skip(k));
        assert(s[p] == s.subrange(p, p + n)[0]);
        if k == 2 {
            assert(s[p + 1] == s.subrange(p, p + n)[1]);
        }
        lemma_quoted_text(s, p + k, rest);
        assert(seq![text[0]] + rest =~= text);
    }
}

/// A string is read as what stands between its quotes, two quotes for one.
pub proof fn strings_are_read_back(s: Seq<char>, p: int, text: Seq<char>)
    requires
        0 <= p,
        p + 1 + escaped(text).len() < s.len(),
        s[p] == '\'',
        s.subrange(p + 1, p + 1 + escaped(text).len()) == escaped(text),
        s[p + 1 + escaped(text).len()] == '\'',
        p + escaped(text).len() + 2 < s.len() ==> s[p + escaped(text).len() + 2] != '\'',
    ensures
        token_at(s, p) == Ok::<(TokenView, int), ErrorKind>(
            (TokenView::String(text), p + escaped(text).len() + 2),
        ),
{
    lemma_quoted_text(s, p + 1, text);
}

// ---------------------------------------------------------------------------
// Numbers

proof fn lemma_digit_run(s: Seq<char>, p: int, q: int)
    requires
        0 <= p <= q <= s.len(),
        forall|i: int| p <= i < q ==> is_digit(#[trigger] s[i]),
        q < s.len() ==> !is_digit(s[q]),
    ensures
        digits_end(s, p) == q,
        run_end(s, p) == q,
    decreases q - p,
{
    if p < q {
        assert(is_digit(s[p]));
        lemma_digit_run(s, p + 1, q);
    }
}

/// Whether digits stand from one place to another, and no digit behind them.
pub open spec fn digits_stand(s: Seq<char>, p: int, q: int) -> bool {
    &&& 0 <= p <= q <= s.len()
    &&& forall|i: int| p <= i < q ==> is_digit(#[trigger] s[i])
    &&& q < s.len() ==> !is_digit(s[q])
}

/// Digits are one number; with a point and digits behind them, or an exponent,
/// those belong to it.
pub proof fn numbers_are_read_whole(s: Seq<char>, p: int, a: int, b: int)
    requires
        p < a,
        digits_stand(s, p, a),
    ensures
        !at(s, a, '.') && !at(s, a, 'e') && !at(s, a, 'E') ==> token_at(s, p) == Ok::<
            (TokenView, int),
            ErrorKind,
        >((TokenView::Number(s.subrange(p, a)), a)),
        at(s, a, '.') && a + 1 < b && digits_stand(s, a + 1, b) && !at(s, b, 'e') && !at(
            s,
            b,
            'E',
        ) ==> token_at(s, p) == Ok::<(TokenView, int), ErrorKind>(
            (TokenView::Number(s.subrange(p, b)), b),
        ),
        at(s, a, '.') && !(a + 1 < s.len() && is_digit(s[a + 1])) ==> token_at(s, p) == Ok::<
            (TokenView, int),
            ErrorKind,
        >((TokenView::Number(s.subrange(p, a)), a)),
        (at(s, a, 'e') || at(s, a, 'E')) && a + 1 < b && digits_stand(s, a + 1, b) ==> token_at(
            s,
            p,
        ) == Ok::<(TokenView, int), ErrorKind>((TokenView::Number(s.subrange(p, b)), b)),
        (at(s, a, 'e') || at(s, a, 'E')) && (at(s, a + 1, '+') || at(s, a + 1, '-')) && a + 2 < b
            && digits_stand(s, a + 2, b) ==> token_at(s, p) == Ok::<(TokenView, int), ErrorKind>(
            (TokenView::Number(s.subrange(p, b)), b),
        ),
{
    lemma_digit_run(s, p, a);
    assert(is_digit(s[p]));
    if a + 1 < b && digits_stand(s, a + 1, b) {
        lemma_digit_run(s, a + 1, b);
        assert(is_digit(s[a + 1]));
    }
    if a + 2 < b && digits_stand(s, a + 2, b) {
        lemma_digit_run(s, a + 2, b);
    }
}

/// A number written in digits alone is the integer of those digits, where it has
/// 64 bits, and no number where it has more; as a number of rows it may use all
/// 64.
pub proof fn digits_are_integers(s: Seq<char>)
    requires
        s.len() > 0,
        all_digits(s),
    ensures
        number_value(s) == (if digits_value(s) <= i64::MAX {
            Some(ValueView::Int64(digits_value(s) as i64))
        } else {
            None
        }),
        row_count(s) == (if digits_value(s) <= u64::MAX {
            Some(digits_value(s) as u64)
        } else {
            None
        }),
{
    assert(is_digit(s[0]));
    assert forall|c: char| #[trigger] s.contains(c) implies is_digit(c) by {
        let i = choose|i: int| 0 <= i < s.len() && s[i] == c;
        assert(is_digit(s[i]));
    }
    assert(!s.contains('.'));
    assert(!s.contains('e'));
    assert(!s.contains('E'));
}

/// A count written out is read back, as an integer and as a number of rows.
pub proof fn counts_are_read_back(n: nat)
    ensures
        n <= i64::MAX ==> number_value(decimal_text(n)) == Some(ValueView::Int64(n as i64)),
        n <= u64::MAX ==> row_count(decimal_text(n)) == Some(n as u64),
{
    lemma_decimal_read(n);
    digits_are_integers(decimal_text(n));
}

/// A number with a point is the double nearest to its digits, divided by ten
/// for each digit behind the point.
pub proof fn fractions_are_doubles(a: Seq<char>, b: Seq<char>)
    requires
        a.len() > 0,
        all_digits(a),
        all_digits(b),
        digits_value(a + b) > 0,
    ensures
        number_value(a + seq!['.'] + b) == Some(
            ValueView::Float64(
                Float64::with_sign(
                    if b.len() == 0 {
                        nearest(
                            digits_value(a + b) as int * vstd::arithmetic::power2::pow2(1074),
                            1,
                        )
                    } else {
                        nearest(
                            digits_value(a + b) as int * vstd::arithmetic::power2::pow2(1074),
                            power10(b.len()),
                        )
                    },
                    false,
                ),
            ),
        ),
{
    let s = a + seq!['.'] + b;
    let n = a.len() as int;
    assert(s[n] == '.');
    assert(s.contains('.'));
    assert forall|i: int| 0 <= i < n implies is_digit(#[trigger] s[i]) by {
        assert(s[i] == a[i]);
    }
    assert forall|i: int| n + 1 <= i < s.len() implies is_digit(#[trigger] s[i]) by {
        assert(s[i] == b[i - n - 1]);
    }
    assert(is_digit(s[0]));
    lemma_digit_run(s, 0, n);
    lemma_digit_run(s, n + 1, s.len() as int);
    assert(body_start(s) == 0);
    assert(fraction_start(s) == n + 1);
    assert(s.subrange(0, n) =~= a);
    assert(s.subrange(n + 1, s.len() as int) =~= b);
    assert(mantissa(s) == a + b);
    let z: nat = 0;
    assert(power10(z) == 1);
    let m = digits_value(a + b) as int;
    assert(m * 1 == m);
    assert(exponent(s, s.len() as int) == Some(0int));
}

/// A number with an exponent is the double nearest to its digits times that
/// power of ten, or divided by it where the exponent is negative.
pub proof fn exponents_are_powers_of_ten(a: Seq<char>, e: char, c: Seq<char>)
    requires
        a.len() > 0,
        all_digits(a),
        c.len() > 0,
        all_digits(c),
        e == 'e' || e == 'E',
        digits_value(a) > 0,
    ensures
        number_value(a + seq![e] + c) == Some(
            ValueView::Float64(
                Float64::with_sign(
                    nearest(
                        digits_value(a) * power10(digits_value(c))
                            * vstd::arithmetic::power2::pow2(1074),
                        1,
                    ),
                    false,
                ),
            ),
        ),
        digits_value(c) > 0 ==> number_value(a + seq![e, '-'] + c) == Some(
            ValueView::Float64(
                Float64::with_sign(
                    nearest(
                        digits_value(a) as int * vstd::arithmetic::power2::pow2(1074),
                        power10(digits_value(c)),
                    ),
                    false,
                ),
            ),
        ),
{
    let n = a.len() as int;
    let s = a + seq![e] + c;
    assert(s[n] == e);
    assert(s.contains(e));
    assert forall|i: int| 0 <= i < n implies is_digit(#[trigger] s[i]) by {
        assert(s[i] == a[i]);
    }
    assert forall|i: int| n + 1 <= i < s.len() implies is_digit(#[trigger] s[i]) by {
        assert(s[i] == c[i - n - 1]);
    }
    assert(is_digit(s[0]));
    assert(is_digit(s[n + 1]));
    lemma_digit_run(s, 0, n);
    lemma_digit_run(s, n, n);
    lemma_digit_run(s, n + 1, s.len() as int);
    assert(body_start(s) == 0);
    assert(fraction_start(s) == n);
    assert(s.subrange(0, n) =~= a);
    assert(mantissa(s) =~= a);
    assert(s.subrange(n + 1, s.len() as int) =~= c);
    assert(exponent(s, n) == Some(digits_value(c) as int));

    let t = a + seq![e, '-'] + c;
    assert(t[n] == e);
    assert(t.contains(e));
    assert(t[n + 1] == '-');
    assert forall|i: int| 0 <= i < n implies is_digit(#[trigger] t[i]) by {
        assert(t[i] == a[i]);
    }
    assert forall|i: int| n + 2 <= i < t.len() implies is_digit(#[trigger] t[i]) by {
        assert(t[i] == c[i - n - 2]);
    }
    assert(is_digit(t[0]));
    lemma_digit_run(t, 0, n);
    lemma_digit_run(t, n, n);
    lemma_digit_run(t, n + 2, t.len() as int);
    assert(body_start(t) == 0);
    assert(fraction_start(t) == n);
    assert(t.subrange(0, n) =~= a);
    assert(mantissa(t) =~= a);
    assert(t.subrange(n + 2, t.len() as int) =~= c);
    assert(exponent(t, n) == Some(-(digits_value(c) as int)));
}

// ---------------------------------------------------------------------------
// Marks

/// Whether a text stands at a place.
pub open spec fn text_at(s: Seq<char>, p: int, w: Seq<char>) -> bool {
    0 <= p && p + w.len() <= s.len() && s.subrange(p, p + w.len()) == w
}

/// A mark is the text that it is written as, where `<>` may be written `!=`; and
/// no longer mark stands there.
pub proof fn marks_are_read_as_they_are_written(s: Seq<char>, p: int)
    requires
        0 <= p < s.len(),
    ensures
        mark_at(s, p) matches Some((m, q)) ==> {
            &&& m != Mark::Eof
            &&& text_at(s, p, m.spec_text()) && q == p + m.spec_text().len() || (m == Mark::NotEq
                && text_at(s, p, "!="@) && q == p + 2)
            &&& m == Mark::Lt ==> !at(s, p + 1, '=') && !at(s, p + 1, '>')
            &&& m == Mark::Gt ==> !at(s, p + 1, '=')
        },
        forall|m: Mark|
            m != Mark::Eof && #[trigger] text_at(s, p, m.spec_text()) ==> mark_at(s, p) is Some,
        text_at(s, p, "!="@) ==> mark_at(s, p) is Some,
        mark_at(s, p) is Some && !starts_word(s[p]) && !is_digit(s[p]) && s[p] != '\''
            ==> token_at(s, p) == Ok::<(TokenView, int), ErrorKind>(
            (TokenView::Mark(mark_at(s, p)->Some_0.0), mark_at(s, p)->Some_0.1),
        ),
{
    lemma_mark_texts();
    if let Some((m, q)) = mark_at(s, p) {
        let w = s.subrange(p, q);
        if q == p + 1 {
            assert(w =~= seq![s[p]]);
        } else {
            assert(w =~= seq![s[p], s[p + 1]]);
        }
    }
    assert forall|m: Mark|
        m != Mark::Eof && #[trigger] text_at(s, p, m.spec_text()) implies mark_at(s, p) is Some by {
        let w = m.spec_text();
        assert(s[p] == s.subrange(p, p + w.len())[0]);
    }
    if text_at(s, p, "!="@) {
        assert(s[p] == s.subrange(p, p + 2)[0]);
        assert(s[p + 1] == s.subrange(p, p + 2)[1]);
    }
}

proof fn lemma_mark_texts()
    ensures
        Mark::Plus.spec_text() == seq!['+'],
        Mark::Minus.spec_text() == seq!['-'],
        Mark::Star.spec_text() == seq!['*'],
        Mark::Slash.spec_text() == seq!['/'],
        Mark::Percent.spec_text() == seq!['%'],
        Mark::Comma.spec_text() == seq![','],
        Mark::Semicolon.spec_text() == seq![';'],
        Mark::Dot.spec_text() == seq!['.'],
        Mark::LParen.spec_text() == seq!['('],
        Mark::RParen.spec_text() == seq![')'],
        Mark::Eq.spec_text() == seq!['='],
        Mark::NotEq.spec_text() == seq!['<', '>'],
        Mark::Lt.spec_text() == seq!['<'],
        Mark::LtEq.spec_text() == seq!['<', '='],
        Mark::Gt.spec_text() == seq!['>'],
        Mark::GtEq.spec_text() == seq!['>', '='],
        "!="@ == seq!['!', '='],
{
    reveal_strlit("+");
    assert("+"@ =~= seq!['+']);
    reveal_strlit("-");
    assert("-"@ =~= seq!['-']);
    reveal_strlit("*");
    assert("*"@ =~= seq!['*']);
    reveal_strlit("/");
    assert("/"@ =~= seq!['/']);
    reveal_strlit("%");
    assert("%"@ =~= seq!['%']);
    reveal_strlit(",");
    assert(","@ =~= seq![',']);
    reveal_strlit(";");
    assert(";"@ =~= seq![';']);
    reveal_strlit(".");
    assert("."@ =~= seq!['.']);
    reveal_strlit("(");
    assert("("@ =~= seq!['(']);
    reveal_strlit(")");
    assert(")"@ =~= seq![')']);
    reveal_strlit("=");
    assert("="@ =~= seq!['=']);
    reveal_strlit("<>");
    assert("<>"@ =~= seq!['<', '>']);
    reveal_strlit("<");
    assert("<"@ =~= seq!['<']);
    reveal_strlit("<=");
    assert("<="@ =~= seq!['<', '=']);
    reveal_strlit(">");
    assert(">"@ =~= seq!['>']);
    reveal_strlit(">=");
    assert(">="@ =~= seq!['>', '=']);
    reveal_strlit("!=");
    assert("!="@ =~= seq!['!', '=']);
}

// ---------------------------------------------------------------------------
// Types

/// A type may be named by its name in any case, or by one of its other names.
pub proof fn types_are_their_names(name: Seq<char>, t: DataType)
    ensures
        lowered(name) == lowered(
            match t {
                DataType::Int64 => "Int64"@,
                DataType::Float64 => "Float64"@,
                DataType::Utf8 => "Utf8"@,
                DataType::Boolean => "Boolean"@,
            },
        ) ==> type_named(name) == Some(t),
        lowered(name) == "int"@ ==> type_named(name) == Some(DataType::Int64),
        lowered(name) == "float"@ || lowered(name) == "double"@ ==> type_named(name) == Some(
            DataType::Float64,
        ),
        lowered(name) == "string"@ || lowered(name) == "varchar"@ || lowered(name) == "text"@
            ==> type_named(name) == Some(DataType::Utf8),
        lowered(name) == "bool"@ ==> type_named(name) == Some(DataType::Boolean),
{
    reveal_strlit("int64");
    reveal_strlit("int");
    reveal_strlit("float64");
    reveal_strlit("float");
    reveal_strlit("double");
    reveal_strlit("utf8");
    reveal_strlit("string");
    reveal_strlit("varchar");
    reveal_strlit("text");
    reveal_strlit("boolean");
    reveal_strlit("bool");
    reveal_strlit("Int64");
    reveal_strlit("Float64");
    reveal_strlit("Utf8");
    reveal_strlit("Boolean");
    assert("int64"@.len() == 5);
    assert("int"@.len() == 3);
    assert("float64"@.len() == 7);
    assert("float"@.len() == 5);
    assert("double"@.len() == 6);
    assert("utf8"@.len() == 4);
    assert("string"@.len() == 6);
    assert("varchar"@.len() == 7);
    assert("text"@.len() == 4);
    assert("boolean"@.len() == 7);
    assert("bool"@.len() == 4);
    assert("int64"@[0] != "float"@[0]);
    assert("int64"@ != "float"@);
    assert("float64"@[0] != "varchar"@[0]);
    assert("float64"@ != "varchar"@);
    assert("float64"@[0] != "boolean"@[0]);
    assert("float64"@ != "boolean"@);
    assert("double"@[0] != "string"@[0]);
    assert("double"@ != "string"@);
    assert("utf8"@[0] != "text"@[0]);
    assert("utf8"@ != "text"@);
    assert("utf8"@[0] != "bool"@[0]);
    assert("utf8"@ != "bool"@);
    assert("varchar"@[0] != "boolean"@[0]);
    assert("varchar"@ != "boolean"@);
    assert("text"@[0] != "bool"@[0]);
    assert("text"@ != "bool"@);
    assert(lowered("Int64"@) =~= "int64"@);
    assert(lowered("Float64"@) =~= "float64"@);
    assert(lowered("Utf8"@) =~= "utf8"@);
    assert(lowered("Boolean"@) =~= "boolean"@);
}

/// A type is known by its own name, written in any case.
pub proof fn types_are_known_by_their_names(t: DataType, name: Seq<char>)
    requires
        lowered(name) == lowered(t.spec_name()),
    ensures
        type_named(name) == Some(t),
{
    reveal_strlit("Int64");
    reveal_strlit("int64");
    reveal_strlit("int");
    reveal_strlit("Float64");
    reveal_strlit("float64");
    reveal_strlit("float");
    reveal_strlit("double");
    reveal_strlit("Utf8");
    reveal_strlit("utf8");
    reveal_strlit("string");
    reveal_strlit("varchar");
    reveal_strlit("text");
    reveal_strlit("Boolean");
    reveal_strlit("boolean");
    reveal_strlit("bool");
    assert(lowered("Int64"@) =~= "int64"@);
    assert(lowered("Float64"@) =~= "float64"@);
    assert(lowered("Utf8"@) =~= "utf8"@);
    assert(lowered("Boolean"@) =~= "boolean"@);
    assert("float64"@.len() == 7 && "int64"@.len() == 5 && "int"@.len() == 3);
    assert("utf8"@.len() == 4 && "utf8"@[0] == 'u' && "boolean"@[0] == 'b');
    assert("float"@[0] == 'f' && "double"@[0] == 'd' && "int64"@[0] == 'i' && "int"@[0] == 'i');
    assert("float64"@[0] == 'f' && "string"@[0] == 's' && "varchar"@[0] == 'v' && "text"@[0] == 't');
}

proof fn lemma_one_more_scalar(s: Seq<char>, c: char)
    ensures
        encode_utf8(s.push(c)).len() == encode_utf8(s).len() + encode_scalar(c as u32).len(),
    decreases s.len(),
{
    if s.len() == 0 {
        assert(s.push(c).drop_first() =~= s);
        assert(s.push(c)[0] == c);
    } else {
        assert(s.push(c).drop_first() =~= s.drop_first().push(c));
        assert(s.push(c)[0] == s[0]);
        lemma_one_more_scalar(s.drop_first(), c);
    }
}

/// Places in the text are counted in bytes: the place of a character is the
/// length of the text before it in UTF-8.
pub proof fn places_count_bytes(s: Seq<char>, k: nat)
    requires
        k <= s.len(),
    ensures
        byte_pos(s, k) == encode_utf8(s.take(k as int)).len(),
    decreases k,
{
    if k == 0 {
        assert(s.take(0) =~= seq![]);
    } else {
        places_count_bytes(s, (k - 1) as nat);
        assert(s.take(k as int) =~= s.take(k - 1).push(s[k - 1]));
        lemma_one_more_scalar(s.take(k - 1), s[k - 1]);
        char_is_scalar(s[k - 1]);
        assert(encode_scalar(s[k - 1] as u32).len() == byte_len(s[k - 1]));
    }
}

/// Whether an error points at a place in the text: at a character that begins
/// no token, or from a quotation mark that is never closed to the end.
pub open spec fn points_at(s: Seq<char>, q: int, k: ErrorKind) -> bool {
    ||| s[q] != '\'' && k == ErrorKind::Syntax(
        Span { start: byte_pos(s, q as nat) as usize, end: byte_pos(s, (q + 1) as nat) as usize },
        "unexpected character '"@.push(s[q]).push('\''),
    )
    ||| s[q] == '\'' && k == ErrorKind::Syntax(
        Span { start: byte_pos(s, q as nat) as usize, end: byte_pos(s, s.len()) as usize },
        "unterminated string literal"@,
    )
}

/// Where a text cannot be read, the error says what is wrong and where.
pub proof fn errors_point_at_what_is_wrong(s: Seq<char>, p: int)
    requires
        0 <= p <= s.len(),
    ensures
        tokens_from(s, p) matches Err(k) ==> exists|q: int|
            p <= q < s.len() && #[trigger] points_at(s, q, k),
        tokens_from(s, p) matches Err(k) ==> lexed(s, p) == Err::<
            Seq<(TokenView, Span)>,
            ErrorKind,
        >(k),
    decreases s.len() - p,
{
    let q = skipped(s, p);
    if !(q >= s.len() || q < p) {
        match token_at(s, q) {
            Err(k) => {
                assert(points_at(s, q, k));
            },
            Ok((t, end)) => {
                if end > q && end <= s.len() {
                    errors_point_at_what_is_wrong(s, end);
                    match tokens_from(s, end) {
                        Err(k) => {
                            let r = choose|r: int|
                                end <= r < s.len() && #[trigger] points_at(s, r, k);
                            assert(points_at(s, r, k));
                        },
                        Ok(_) => {},
                    }
                }
            },
        }
    }
}

} // verus!
