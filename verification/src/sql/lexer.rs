//! SQL text to tokens. Each token is as long as it can be; `ORDER BY` is one
//! token, and two quotes within a string stand for one.

use vstd::prelude::*;
use vstd::utf8::{encode_scalar, encode_utf8};

use crate::error::{BasaltError, ErrorKind};
use crate::sql::span::{Span, Spanned};
use crate::sql::token::{keyword_of, Keyword, Mark, Token, TokenView};
use crate::text::{chars_of, is_digit, lowered, push_char, same_lowered, text_of};

verus! {

// ---------------------------------------------------------------------------
// Characters and where they are

/// The number of bytes that a character takes.
pub open spec fn byte_len(c: char) -> int {
    if (c as u32) < 0x80 {
        1
    } else if (c as u32) < 0x800 {
        2
    } else if (c as u32) < 0x1_0000 {
        3
    } else {
        4
    }
}

/// The byte at which the `k`th character starts.
pub open spec fn byte_pos(s: Seq<char>, k: nat) -> int
    decreases k,
{
    if k == 0 {
        0
    } else {
        byte_pos(s, (k - 1) as nat) + byte_len(s[k - 1])
    }
}

/// The bytes from one character to another.
pub open spec fn span_of(s: Seq<char>, from: int, to: int) -> Span {
    Span { start: byte_pos(s, from as nat) as usize, end: byte_pos(s, to as nat) as usize }
}

/// A character that separates tokens: those with the Unicode property
/// `White_Space`.
pub open spec fn is_space(c: char) -> bool {
    let n = c as u32;
    ||| 0x9 <= n <= 0xD
    ||| n == 0x20
    ||| n == 0x85
    ||| n == 0xA0
    ||| n == 0x1680
    ||| 0x2000 <= n <= 0x200A
    ||| n == 0x2028
    ||| n == 0x2029
    ||| n == 0x202F
    ||| n == 0x205F
    ||| n == 0x3000
}

/// A letter or an underscore: what a word starts with.
pub open spec fn starts_word(c: char) -> bool {
    ('a' <= c && c <= 'z') || ('A' <= c && c <= 'Z') || c == '_'
}

/// What a word goes on with.
pub open spec fn is_word(c: char) -> bool {
    starts_word(c) || is_digit(c)
}

// ---------------------------------------------------------------------------
// Where things end

/// The place behind a line.
pub open spec fn line_end(s: Seq<char>, p: int) -> int
    decreases s.len() - p,
{
    if p >= s.len() || p < 0 {
        p
    } else if s[p] == '\n' {
        p + 1
    } else {
        line_end(s, p + 1)
    }
}

proof fn lemma_line_end(s: Seq<char>, p: int)
    requires
        0 <= p <= s.len(),
    ensures
        p <= line_end(s, p) <= s.len(),
    decreases s.len() - p,
{
    if p < s.len() && s[p] != '\n' {
        lemma_line_end(s, p + 1);
    }
}

/// The place behind spaces and comments.
pub open spec fn skipped(s: Seq<char>, p: int) -> int
    decreases s.len() - p,
{
    if p >= s.len() || p < 0 {
        p
    } else if is_space(s[p]) {
        skipped(s, p + 1)
    } else if s[p] == '-' && p + 1 < s.len() && s[p + 1] == '-' && p < line_end(s, p + 2)
        <= s.len() {
        skipped(s, line_end(s, p + 2))
    } else {
        p
    }
}

proof fn lemma_skipped(s: Seq<char>, p: int)
    requires
        0 <= p <= s.len(),
    ensures
        p <= skipped(s, p) <= s.len(),
    decreases s.len() - p,
{
    if p < s.len() {
        if is_space(s[p]) {
            lemma_skipped(s, p + 1);
        } else if s[p] == '-' && p + 1 < s.len() && s[p + 1] == '-' {
            lemma_line_end(s, p + 2);
            lemma_skipped(s, line_end(s, p + 2));
        }
    }
}

/// The place behind a word.
pub open spec fn word_end(s: Seq<char>, p: int) -> int
    decreases s.len() - p,
{
    if 0 <= p < s.len() && is_word(s[p]) {
        word_end(s, p + 1)
    } else {
        p
    }
}

proof fn lemma_word_end(s: Seq<char>, p: int)
    requires
        0 <= p <= s.len(),
    ensures
        p <= word_end(s, p) <= s.len(),
    decreases s.len() - p,
{
    if p < s.len() && is_word(s[p]) {
        lemma_word_end(s, p + 1);
    }
}

/// The place behind digits.
pub open spec fn digits_end(s: Seq<char>, p: int) -> int
    decreases s.len() - p,
{
    if 0 <= p < s.len() && is_digit(s[p]) {
        digits_end(s, p + 1)
    } else {
        p
    }
}

proof fn lemma_digits_end(s: Seq<char>, p: int)
    requires
        0 <= p <= s.len(),
    ensures
        p <= digits_end(s, p) <= s.len(),
    decreases s.len() - p,
{
    if p < s.len() && is_digit(s[p]) {
        lemma_digits_end(s, p + 1);
    }
}

/// Whether a character stands at a place.
pub open spec fn at(s: Seq<char>, p: int, c: char) -> bool {
    0 <= p < s.len() && s[p] == c
}

/// The place behind a point and digits, where a digit follows the point.
pub open spec fn fraction_end(s: Seq<char>, p: int) -> int {
    if at(s, p, '.') && p + 1 < s.len() && is_digit(s[p + 1]) {
        digits_end(s, p + 1)
    } else {
        p
    }
}

/// The place behind an exponent.
pub open spec fn exponent_end(s: Seq<char>, p: int) -> int {
    if at(s, p, 'e') || at(s, p, 'E') {
        if at(s, p + 1, '+') || at(s, p + 1, '-') {
            digits_end(s, p + 2)
        } else {
            digits_end(s, p + 1)
        }
    } else {
        p
    }
}

/// The place behind a number.
pub open spec fn number_end(s: Seq<char>, p: int) -> int {
    exponent_end(s, fraction_end(s, digits_end(s, p)))
}

proof fn lemma_number_end(s: Seq<char>, p: int)
    requires
        0 <= p < s.len(),
        is_digit(s[p]),
    ensures
        p < number_end(s, p) <= s.len(),
{
    lemma_digits_end(s, p + 1);
    let a = digits_end(s, p);
    if at(s, a, '.') {
        lemma_digits_end(s, a + 1);
    }
    let b = fraction_end(s, a);
    if at(s, b, 'e') || at(s, b, 'E') {
        lemma_digits_end(s, b + 1);
        if at(s, b + 1, '+') || at(s, b + 1, '-') {
            lemma_digits_end(s, b + 2);
        }
    }
}

/// The rest of a string behind its opening quote: what it holds, and the place
/// behind its closing quote.
pub open spec fn quoted(s: Seq<char>, p: int) -> Option<(Seq<char>, int)>
    decreases s.len() - p,
{
    if p >= s.len() || p < 0 {
        None
    } else if s[p] != '\'' {
        match quoted(s, p + 1) {
            Some((text, end)) => Some((seq![s[p]] + text, end)),
            None => None,
        }
    } else if at(s, p + 1, '\'') {
        match quoted(s, p + 2) {
            Some((text, end)) => Some((seq!['\''] + text, end)),
            None => None,
        }
    } else {
        Some((seq![], p + 1))
    }
}

proof fn lemma_quoted(s: Seq<char>, p: int)
    requires
        0 <= p <= s.len(),
    ensures
        quoted(s, p) matches Some((text, end)) ==> p < end <= s.len(),
    decreases s.len() - p,
{
    if p < s.len() {
        if s[p] != '\'' {
            lemma_quoted(s, p + 1);
        } else if at(s, p + 1, '\'') {
            lemma_quoted(s, p + 2);
        }
    }
}

// ---------------------------------------------------------------------------
// Tokens

/// The word at a place, and the place behind it.
pub open spec fn word_token(s: Seq<char>, p: int) -> (TokenView, int) {
    let end = word_end(s, p);
    let word = s.subrange(p, end);
    let next = skipped(s, end);
    let next_end = word_end(s, next);
    if lowered(word) == "order"@ && lowered(s.subrange(next, next_end)) == "by"@ {
        (TokenView::Keyword(Keyword::OrderBy), next_end)
    } else {
        match keyword_of(word) {
            Some(k) => (TokenView::Keyword(k), end),
            None => (TokenView::Identifier(word), end),
        }
    }
}

/// The mark at a place, and the place behind it.
pub open spec fn mark_at(s: Seq<char>, p: int) -> Option<(Mark, int)> {
    let c = s[p];
    if c == '+' {
        Some((Mark::Plus, p + 1))
    } else if c == '-' {
        Some((Mark::Minus, p + 1))
    } else if c == '*' {
        Some((Mark::Star, p + 1))
    } else if c == '/' {
        Some((Mark::Slash, p + 1))
    } else if c == '%' {
        Some((Mark::Percent, p + 1))
    } else if c == ',' {
        Some((Mark::Comma, p + 1))
    } else if c == ';' {
        Some((Mark::Semicolon, p + 1))
    } else if c == '.' {
        Some((Mark::Dot, p + 1))
    } else if c == '(' {
        Some((Mark::LParen, p + 1))
    } else if c == ')' {
        Some((Mark::RParen, p + 1))
    } else if c == '=' {
        Some((Mark::Eq, p + 1))
    } else if c == '!' {
        if at(s, p + 1, '=') {
            Some((Mark::NotEq, p + 2))
        } else {
            None
        }
    } else if c == '<' {
        if at(s, p + 1, '>') {
            Some((Mark::NotEq, p + 2))
        } else if at(s, p + 1, '=') {
            Some((Mark::LtEq, p + 2))
        } else {
            Some((Mark::Lt, p + 1))
        }
    } else if c == '>' {
        if at(s, p + 1, '=') {
            Some((Mark::GtEq, p + 2))
        } else {
            Some((Mark::Gt, p + 1))
        }
    } else {
        None
    }
}

/// What is said of a character that starts no token.
pub open spec fn unexpected(c: char) -> Seq<char> {
    "unexpected character '"@.push(c).push('\'')
}

/// What is said of a string without its closing quote.
pub open spec fn unterminated() -> Seq<char> {
    "unterminated string literal"@
}

/// The token at a place, and the place behind it.
pub open spec fn token_at(s: Seq<char>, p: int) -> Result<(TokenView, int), ErrorKind> {
    let c = s[p];
    if starts_word(c) {
        Ok(word_token(s, p))
    } else if is_digit(c) {
        Ok((TokenView::Number(s.subrange(p, number_end(s, p))), number_end(s, p)))
    } else if c == '\'' {
        match quoted(s, p + 1) {
            Some((text, end)) => Ok((TokenView::String(text), end)),
            None => Err(ErrorKind::Syntax(span_of(s, p, s.len() as int), unterminated())),
        }
    } else {
        match mark_at(s, p) {
            Some((m, end)) => Ok((TokenView::Mark(m), end)),
            None => Err(ErrorKind::Syntax(span_of(s, p, p + 1), unexpected(c))),
        }
    }
}

pub proof fn lemma_token_at(s: Seq<char>, p: int)
    requires
        0 <= p < s.len(),
    ensures
        token_at(s, p) matches Ok((t, end)) ==> p < end <= s.len(),
{
    let c = s[p];
    if starts_word(c) {
        lemma_word_end(s, p + 1);
        let end = word_end(s, p);
        lemma_skipped(s, end);
        lemma_word_end(s, skipped(s, end));
    } else if is_digit(c) {
        lemma_number_end(s, p);
    } else if c == '\'' {
        lemma_quoted(s, p + 1);
    }
}

/// The tokens from a place on, each with its bytes.
pub open spec fn tokens_from(s: Seq<char>, p: int) -> Result<Seq<(TokenView, Span)>, ErrorKind>
    decreases s.len() - p,
{
    let q = skipped(s, p);
    if q >= s.len() || q < p || p < 0 {
        Ok(seq![])
    } else {
        match token_at(s, q) {
            Err(k) => Err(k),
            Ok((t, end)) => if end <= q || end > s.len() {
                Ok(seq![])
            } else {
                match tokens_from(s, end) {
                    Err(k) => Err(k),
                    Ok(rest) => Ok(seq![(t, span_of(s, q, end))] + rest),
                }
            },
        }
    }
}

/// The tokens from a place on, and the end.
pub open spec fn lexed(s: Seq<char>, p: int) -> Result<Seq<(TokenView, Span)>, ErrorKind> {
    match tokens_from(s, p) {
        Err(k) => Err(k),
        Ok(tokens) => Ok(
            tokens.push(
                (TokenView::Mark(Mark::Eof), span_of(s, s.len() as int, s.len() as int)),
            ),
        ),
    }
}

/// Tokens behind those that were found.
pub open spec fn behind(
    done: Seq<(TokenView, Span)>,
    r: Result<Seq<(TokenView, Span)>, ErrorKind>,
) -> Result<Seq<(TokenView, Span)>, ErrorKind> {
    match r {
        Err(k) => Err(k),
        Ok(rest) => Ok(done + rest),
    }
}

/// The models of tokens with their bytes.
pub open spec fn token_views(v: Seq<Spanned<Token>>) -> Seq<(TokenView, Span)> {
    Seq::new(v.len(), |i: int| (v[i].value@, v[i].span))
}

/// The outcome of lexing.
pub open spec fn lex_outcome(r: Result<Vec<Spanned<Token>>, BasaltError>) -> Result<
    Seq<(TokenView, Span)>,
    ErrorKind,
> {
    match r {
        Ok(v) => Ok(token_views(v@)),
        Err(e) => Err(e@),
    }
}

// ---------------------------------------------------------------------------
// Laws

proof fn lemma_positions_ascend(s: Seq<char>, a: nat, b: nat)
    requires
        a <= b,
    ensures
        byte_pos(s, a) <= byte_pos(s, b),
        a < b ==> byte_pos(s, a) < byte_pos(s, b),
        0 <= byte_pos(s, a),
    decreases b,
{
    if a < b {
        lemma_positions_ascend(s, a, (b - 1) as nat);
    } else if a > 0 {
        lemma_positions_ascend(s, (a - 1) as nat, (a - 1) as nat);
    }
}

/// Whether tokens lie one behind the other, from one byte to another.
pub open spec fn in_order(tokens: Seq<(TokenView, Span)>, from: int, to: int) -> bool {
    &&& forall|i: int|
        0 <= i < tokens.len() ==> from <= (#[trigger] tokens[i]).1.start
            && tokens[i].1.start < tokens[i].1.end && tokens[i].1.end <= to
    &&& forall|i: int, j: int|
        0 <= i < j < tokens.len() ==> (#[trigger] tokens[i]).1.end <= (#[trigger] tokens[j]).1.start
}

/// Every token has some bytes of the text, and they lie one behind the other.
pub proof fn tokens_are_in_order(s: Seq<char>, p: int)
    requires
        0 <= p <= s.len(),
        byte_pos(s, s.len()) <= usize::MAX,
    ensures
        tokens_from(s, p) matches Ok(tokens) ==> in_order(
            tokens,
            byte_pos(s, p as nat),
            byte_pos(s, s.len()),
        ),
    decreases s.len() - p,
{
    lemma_skipped(s, p);
    let q = skipped(s, p);
    if q < s.len() {
        lemma_token_at(s, q);
        match token_at(s, q) {
            Ok((t, end)) => {
                tokens_are_in_order(s, end);
                lemma_positions_ascend(s, p as nat, q as nat);
                lemma_positions_ascend(s, q as nat, end as nat);
                lemma_positions_ascend(s, end as nat, s.len());
                match tokens_from(s, end) {
                    Ok(rest) => {
                        let all = seq![(t, span_of(s, q, end))] + rest;
                        assert forall|i: int| 0 <= i < all.len() implies byte_pos(s, p as nat)
                            <= (#[trigger] all[i]).1.start && all[i].1.start < all[i].1.end
                            && all[i].1.end <= byte_pos(s, s.len()) by {
                            if i > 0 {
                                assert(all[i] == rest[i - 1]);
                            }
                        }
                        assert forall|i: int, j: int| 0 <= i < j < all.len() implies (
                        #[trigger] all[i]).1.end <= (#[trigger] all[j]).1.start by {
                            assert(all[j] == rest[j - 1]);
                            if i > 0 {
                                assert(all[i] == rest[i - 1]);
                            }
                        }
                    },
                    Err(k) => {},
                }
            },
            Err(k) => {},
        }
    }
}

/// A word or a number stands in the text as the token has it.
pub proof fn words_are_taken_from_the_text(s: Seq<char>, p: int)
    requires
        0 <= p < s.len(),
    ensures
        token_at(s, p) matches Ok((t, end)) ==> {
            &&& t matches TokenView::Identifier(w) ==> w == s.subrange(p, end)
            &&& t matches TokenView::Number(w) ==> w == s.subrange(p, end)
        },
{
}

// ---------------------------------------------------------------------------
// The lexer

proof fn lemma_first_pos(s: Seq<char>, k: nat)
    requires
        0 < k <= s.len(),
    ensures
        byte_pos(s, k) == byte_len(s[0]) + byte_pos(s.drop_first(), (k - 1) as nat),
    decreases k,
{
    if k > 1 {
        lemma_first_pos(s, (k - 1) as nat);
        assert(s.drop_first()[k - 2] == s[k - 1]);
    } else {
        assert(byte_pos(s, 0) == 0);
        assert(byte_pos(s.drop_first(), 0) == 0);
    }
}

proof fn lemma_total(s: Seq<char>)
    ensures
        byte_pos(s, s.len()) == encode_utf8(s).len(),
    decreases s.len(),
{
    if s.len() > 0 {
        lemma_first_pos(s, s.len());
        lemma_total(s.drop_first());
        vstd::utf8::char_is_scalar(s[0]);
        assert(encode_scalar(s[0] as u32).len() == byte_len(s[0]));
    }
}

fn char_len(c: char) -> (r: usize)
    ensures
        r == byte_len(c),
{
    let n: u32 = c as u32;
    if n < 0x80 {
        1
    } else if n < 0x800 {
        2
    } else if n < 0x1_0000 {
        3
    } else {
        4
    }
}

fn space(c: char) -> (r: bool)
    ensures
        r == is_space(c),
{
    let n: u32 = c as u32;
    (0x9 <= n && n <= 0xD) || n == 0x20 || n == 0x85 || n == 0xA0 || n == 0x1680 || (0x2000 <= n
        && n <= 0x200A) || n == 0x2028 || n == 0x2029 || n == 0x202F || n == 0x205F || n == 0x3000
}

fn digit(c: char) -> (r: bool)
    ensures
        r == is_digit(c),
{
    '0' <= c && c <= '9'
}

fn word_start(c: char) -> (r: bool)
    ensures
        r == starts_word(c),
{
    ('a' <= c && c <= 'z') || ('A' <= c && c <= 'Z') || c == '_'
}

fn word_char(c: char) -> (r: bool)
    ensures
        r == is_word(c),
{
    word_start(c) || digit(c)
}

/// A text and how far it has been read.
pub struct Lexer<'a> {
    input: &'a str,
    chars: Vec<char>,
    /// The byte at which each character starts, and the number of bytes.
    starts: Vec<usize>,
    position: usize,
}

impl<'a> Lexer<'a> {
    /// The characters of the text.
    pub closed spec fn text(&self) -> Seq<char> {
        self.input@
    }

    /// The character that is next.
    pub closed spec fn place(&self) -> int {
        self.position as int
    }

    #[verifier::type_invariant]
    spec fn wf(&self) -> bool {
        &&& self.chars@ == self.input@
        &&& self.starts@.len() == self.chars@.len() + 1
        &&& self.chars@.len() < usize::MAX
        &&& forall|k: int|
            0 <= k < self.starts@.len() ==> #[trigger] self.starts@[k] == byte_pos(
                self.input@,
                k as nat,
            )
        &&& self.position <= self.chars@.len()
    }

    pub fn new(input: &'a str) -> (r: Lexer<'a>)
        ensures
            r.text() == input@,
            r.place() == 0,
    {
        let chars = chars_of(input);
        let total: usize = input.as_bytes().len();
        let ghost s = input@;
        proof {
            lemma_total(s);
        }
        let mut starts: Vec<usize> = Vec::new();
        starts.push(0);
        let mut i: usize = 0;
        while i < chars.len()
            invariant
                i <= chars@.len(),
                chars@ == s,
                byte_pos(s, s.len()) == total,
                starts@.len() == i + 1,
                forall|k: int|
                    0 <= k < starts@.len() ==> #[trigger] starts@[k] == byte_pos(s, k as nat),
            decreases chars@.len() - i,
        {
            proof {
                lemma_positions_ascend(s, (i + 1) as nat, s.len());
                assert(starts@[i as int] == byte_pos(s, i as nat));
            }
            let next: usize = starts[i] + char_len(chars[i]);
            starts.push(next);
            i = i + 1;
        }
        let count: usize = starts.len();
        Lexer { input, chars, starts, position: 0 }
    }

    /// The tokens of the rest of the text, and the end.
    ///
    /// # Errors
    /// A syntax error for a string without a closing quote, and for a character
    /// that no token starts with.
    pub fn tokenize(&mut self) -> (r: Result<Vec<Spanned<Token>>, BasaltError>)
        ensures
            lex_outcome(r) == lexed(old(self).text(), old(self).place()),
            final(self).text() == old(self).text(),
            r is Ok ==> final(self).place() == old(self).text().len(),
    {
        proof {
            use_type_invariant(&*self);
        }
        let ghost s = self.input@;
        let ghost start = self.position as int;
        let n: usize = self.chars.len();
        let mut tokens: Vec<Spanned<Token>> = Vec::new();
        let mut p: usize = self.position;
        let mut done = false;
        proof {
            assert(token_views(tokens@) =~= seq![]);
            match tokens_from(s, start) {
                Ok(rest) => {
                    assert(seq![] + rest =~= rest);
                },
                Err(k) => {},
            }
        }
        while !done
            invariant
                self.wf(),
                s == self.input@,
                self.input == old(self).input,
                start == old(self).position,
                n == s.len(),
                p <= n,
                behind(token_views(tokens@), tokens_from(s, p as int)) == tokens_from(s, start),
                done ==> tokens_from(s, p as int) == Ok::<Seq<(TokenView, Span)>, ErrorKind>(
                    seq![],
                ),
            decreases n - p + (if done { 0int } else { 1int }),
        {
            proof {
                lemma_skipped(s, p as int);
            }
            let q: usize = self.skip_whitespace(p);
            if q >= n {
                done = true;
            } else {
                proof {
                    lemma_token_at(s, q as int);
                }
                match self.token(q) {
                    Err(e) => {
                        return Err(e);
                    },
                    Ok((token, end)) => {
                        let ghost was = token_views(tokens@);
                        let ghost item = (token@, span_of(s, q as int, end as int));
                        let span = Span::new(self.starts[q], self.starts[end]);
                        tokens.push(Spanned::new(token, span));
                        proof {
                            assert(token_views(tokens@) =~= was.push(item));
                            match tokens_from(s, end as int) {
                                Ok(rest) => {
                                    assert(was + (seq![item] + rest) =~= was.push(item) + rest);
                                },
                                Err(k) => {},
                            }
                        }
                        p = end;
                    },
                }
            }
        }
        let total: usize = self.starts[n];
        let ghost was = token_views(tokens@);
        assert(was + seq![] =~= was);
        tokens.push(Spanned::new(Token::Eof, Span::new(total, total)));
        assert(token_views(tokens@) =~= was.push(
            (TokenView::Mark(Mark::Eof), span_of(s, n as int, n as int)),
        ));
        self.position = n;
        Ok(tokens)
    }

    /// The place behind spaces and comments.
    fn skip_whitespace(&self, from: usize) -> (r: usize)
        requires
            from <= self.text().len(),
        ensures
            r == skipped(self.text(), from as int),
            from <= r <= self.text().len(),
    {
        proof {
            use_type_invariant(self);
        }
        let ghost s = self.input@;
        let n: usize = self.chars.len();
        let mut p: usize = from;
        while p < n
            invariant_except_break
                self.wf(),
                s == self.input@,
                n == s.len(),
                from <= p <= n,
                skipped(s, p as int) == skipped(s, from as int),
            ensures
                from <= p <= n,
                n == s.len(),
                p == skipped(s, from as int),
            decreases n - p,
        {
            let c: char = self.chars[p];
            if space(c) {
                p = p + 1;
            } else if c == '-' && p + 1 < n && self.chars[p + 1] == '-' {
                proof {
                    lemma_line_end(s, p + 2);
                }
                p = self.line_end(p + 2);
            } else {
                break;
            }
        }
        p
    }

    fn line_end(&self, from: usize) -> (r: usize)
        requires
            from <= self.text().len(),
        ensures
            r == line_end(self.text(), from as int),
            from <= r <= self.text().len(),
    {
        proof {
            use_type_invariant(self);
        }
        let ghost s = self.input@;
        let n: usize = self.chars.len();
        let mut p: usize = from;
        while p < n
            invariant
                self.wf(),
                s == self.input@,
                n == s.len(),
                from <= p <= n,
                line_end(s, p as int) == line_end(s, from as int),
            decreases n - p,
        {
            if self.chars[p] == '\n' {
                return p + 1;
            }
            p = p + 1;
        }
        p
    }

    fn word_end(&self, from: usize) -> (r: usize)
        requires
            from <= self.text().len(),
        ensures
            r == word_end(self.text(), from as int),
            from <= r <= self.text().len(),
    {
        proof {
            use_type_invariant(self);
        }
        let ghost s = self.input@;
        let n: usize = self.chars.len();
        let mut p: usize = from;
        while p < n && word_char(self.chars[p])
            invariant
                self.wf(),
                s == self.input@,
                n == s.len(),
                from <= p <= n,
                word_end(s, p as int) == word_end(s, from as int),
            decreases n - p,
        {
            p = p + 1;
        }
        p
    }

    fn digits_end(&self, from: usize) -> (r: usize)
        requires
            from <= self.text().len(),
        ensures
            r == digits_end(self.text(), from as int),
            from <= r <= self.text().len(),
    {
        proof {
            use_type_invariant(self);
        }
        let ghost s = self.input@;
        let n: usize = self.chars.len();
        let mut p: usize = from;
        while p < n && digit(self.chars[p])
            invariant
                self.wf(),
                s == self.input@,
                n == s.len(),
                from <= p <= n,
                digits_end(s, p as int) == digits_end(s, from as int),
            decreases n - p,
        {
            p = p + 1;
        }
        p
    }

    /// Whether a character stands at a place.
    fn is_at(&self, p: usize, c: char) -> (r: bool)
        ensures
            r == at(self.text(), p as int, c),
    {
        proof {
            use_type_invariant(self);
        }
        p < self.chars.len() && self.chars[p] == c
    }

    /// The token at a place, and the place behind it.
    fn token(&self, p: usize) -> (r: Result<(Token, usize), BasaltError>)
        requires
            p < self.text().len(),
        ensures
            match r {
                Ok((t, end)) => token_at(self.text(), p as int) == Ok::<(TokenView, int), ErrorKind>(
                    (t@, end as int),
                ),
                Err(e) => token_at(self.text(), p as int) == Err::<(TokenView, int), ErrorKind>(e@),
            },
    {
        proof {
            use_type_invariant(self);
        }
        let c: char = self.chars[p];
        if word_start(c) {
            return Ok(self.scan_identifier_or_keyword(p));
        }
        if digit(c) {
            return Ok(self.scan_number(p));
        }
        if c == '\'' {
            return self.scan_string(p);
        }
        match self.scan_mark(p) {
            Some((t, end)) => Ok((t, end)),
            None => {
                proof {
                    assert(self.starts@[p as int] == byte_pos(self.input@, p as nat));
                    assert(self.starts@[p + 1] == byte_pos(self.input@, (p + 1) as nat));
                }
                let mut message = "unexpected character '".to_owned();
                push_char(&mut message, c);
                push_char(&mut message, '\'');
                let span = Span::new(self.starts[p], self.starts[p + 1]);
                Err(BasaltError::Syntax { span, message })
            },
        }
    }

    fn scan_mark(&self, p: usize) -> (r: Option<(Token, usize)>)
        requires
            p < self.text().len(),
        ensures
            match r {
                Some((t, end)) => mark_at(self.text(), p as int) matches Some((m, e)) && t@
                    == TokenView::Mark(m) && e == end,
                None => mark_at(self.text(), p as int) is None,
            },
    {
        proof {
            use_type_invariant(self);
        }
        let c: char = self.chars[p];
        if c == '+' {
            Some((Token::Plus, p + 1))
        } else if c == '-' {
            Some((Token::Minus, p + 1))
        } else if c == '*' {
            Some((Token::Star, p + 1))
        } else if c == '/' {
            Some((Token::Slash, p + 1))
        } else if c == '%' {
            Some((Token::Percent, p + 1))
        } else if c == ',' {
            Some((Token::Comma, p + 1))
        } else if c == ';' {
            Some((Token::Semicolon, p + 1))
        } else if c == '.' {
            Some((Token::Dot, p + 1))
        } else if c == '(' {
            Some((Token::LParen, p + 1))
        } else if c == ')' {
            Some((Token::RParen, p + 1))
        } else if c == '=' {
            Some((Token::Eq, p + 1))
        } else if c == '!' {
            if self.is_at(p + 1, '=') {
                Some((Token::NotEq, p + 2))
            } else {
                None
            }
        } else if c == '<' {
            if self.is_at(p + 1, '>') {
                Some((Token::NotEq, p + 2))
            } else if self.is_at(p + 1, '=') {
                Some((Token::LtEq, p + 2))
            } else {
                Some((Token::Lt, p + 1))
            }
        } else if c == '>' {
            if self.is_at(p + 1, '=') {
                Some((Token::GtEq, p + 2))
            } else {
                Some((Token::Gt, p + 1))
            }
        } else {
            None
        }
    }

    /// A word: a keyword or a name.
    fn scan_identifier_or_keyword(&self, p: usize) -> (r: (Token, usize))
        requires
            p < self.text().len(),
        ensures
            word_token(self.text(), p as int) == (r.0@, r.1 as int),
    {
        proof {
            use_type_invariant(self);
        }
        let end: usize = self.word_end(p);
        let name = text_of(&self.chars, p, end);
        if same_lowered(name.as_str(), "order") {
            let next: usize = self.skip_whitespace(end);
            let next_end: usize = self.word_end(next);
            let next_word = text_of(&self.chars, next, next_end);
            if same_lowered(next_word.as_str(), "by") {
                return (Token::Keyword(Keyword::OrderBy), next_end);
            }
        }
        match Keyword::from_str(name.as_str()) {
            Some(k) => (Token::Keyword(k), end),
            None => (Token::Identifier(name), end),
        }
    }

    /// A number as it is written.
    fn scan_number(&self, p: usize) -> (r: (Token, usize))
        requires
            p < self.text().len(),
            is_digit(self.text()[p as int]),
        ensures
            r.0@ == TokenView::Number(
                self.text().subrange(p as int, number_end(self.text(), p as int)),
            ),
            r.1 == number_end(self.text(), p as int),
    {
        proof {
            use_type_invariant(self);
            lemma_number_end(self.input@, p as int);
        }
        let n: usize = self.chars.len();
        let mut end: usize = self.digits_end(p);
        if self.is_at(end, '.') && end + 1 < n && digit(self.chars[end + 1]) {
            end = self.digits_end(end + 1);
        }
        if self.is_at(end, 'e') || self.is_at(end, 'E') {
            if self.is_at(end + 1, '+') || self.is_at(end + 1, '-') {
                end = self.digits_end(end + 2);
            } else {
                end = self.digits_end(end + 1);
            }
        }
        (Token::Number(text_of(&self.chars, p, end)), end)
    }

    /// A string in quotes.
    fn scan_string(&self, p: usize) -> (r: Result<(Token, usize), BasaltError>)
        requires
            p < self.text().len(),
            self.text()[p as int] == '\'',
        ensures
            match r {
                Ok((t, end)) => token_at(self.text(), p as int) == Ok::<(TokenView, int), ErrorKind>(
                    (t@, end as int),
                ),
                Err(e) => token_at(self.text(), p as int) == Err::<(TokenView, int), ErrorKind>(e@),
            },
    {
        proof {
            use_type_invariant(self);
        }
        let ghost s = self.input@;
        let n: usize = self.chars.len();
        let ghost whole = quoted(s, p + 1);
        let mut value = String::new();
        let mut q: usize = p + 1;
        proof {
            match quoted(s, q as int) {
                Some((text, end)) => {
                    assert(value@ + text =~= text);
                },
                None => {},
            }
        }
        while q < n
            invariant
                self.wf(),
                s == self.input@,
                n == s.len(),
                p < q <= n,
                s[p as int] == '\'',
                whole == quoted(s, p + 1),
                match quoted(s, q as int) {
                    Some((text, end)) => whole == Some((value@ + text, end)),
                    None => whole is None,
                },
            decreases n - q,
        {
            let c: char = self.chars[q];
            let ghost was = value@;
            if c != '\'' {
                push_char(&mut value, c);
                proof {
                    match quoted(s, q + 1) {
                        Some((text, end)) => {
                            assert(was + (seq![c] + text) =~= value@ + text);
                        },
                        None => {},
                    }
                }
                q = q + 1;
            } else if self.is_at(q + 1, '\'') {
                push_char(&mut value, '\'');
                proof {
                    match quoted(s, q + 2) {
                        Some((text, end)) => {
                            assert(was + (seq!['\''] + text) =~= value@ + text);
                        },
                        None => {},
                    }
                }
                q = q + 2;
            } else {
                assert(was + seq![] =~= was);
                return Ok((Token::String(value), q + 1));
            }
        }
        proof {
            assert(self.starts@[p as int] == byte_pos(s, p as nat));
            assert(self.starts@[n as int] == byte_pos(s, n as nat));
        }
        Err(
            BasaltError::Syntax {
                span: Span::new(self.starts[p], self.starts[n]),
                message: "unterminated string literal".to_owned(),
            },
        )
    }
}

} // verus!
