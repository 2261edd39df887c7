//! Folding tokens into JSON values.
use crate::json::lexer::{collect_chars, seq_equiv, tok_equiv, Literal, Span, Token, TokenizeError};
use crate::json::{find_member, first_member, lemma_first_member_unique, wf, Json};
use vstd::prelude::*;

verus! {

broadcast use vstd::string::group_string_axioms;

/// The first position of `c` in `t`, if `c` occurs there.
#[verifier::opaque]
pub open spec fn index_of(t: Seq<char>, c: char) -> Option<int> {
    if exists|i: int| 0 <= i < t.len() && t[i] == c {
        Some(choose|i: int| 0 <= i < t.len() && t[i] == c && forall|j: int| 0 <= j < i ==> t[j] != c)
    } else {
        None
    }
}

/// The value of a run of decimal digits.
pub open spec fn digits_value(d: Seq<char>) -> int
    decreases d.len(),
{
    if d.len() == 0 {
        0
    } else {
        digits_value(d.drop_last()) * 10 + (d.last() as int - '0' as int)
    }
}

pub open spec fn all_digits(d: Seq<char>) -> bool {
    forall|k: int| 0 <= k < d.len() ==> '0' <= #[trigger] d[k] <= '9'
}

/// The number of `'0'` characters that `d` starts with.
pub open spec fn zeros_at_start(d: Seq<char>) -> nat
    decreases d.len(),
{
    if d.len() > 0 && d[0] == '0' {
        1 + zeros_at_start(d.drop_first())
    } else {
        0
    }
}

/// Why number text is refused.
pub enum NumberFault {
    Invalid,
    LeadingZero,
}

/// One part of a number (integer, fraction or exponent): an optional `-`,
/// an optional `+`, then decimal digits whose value fits an `i64`. Leading
/// zeros are refused in a non-zero value unless `allow_leading_zero`. Gives
/// the count of leading zeros and the signed value.
pub open spec fn part_value(s: Seq<char>, allow_leading_zero: bool) -> Result<(nat, int), NumberFault> {
    let negative = s.len() > 0 && s[0] == '-';
    let body = if negative { s.drop_first() } else { s };
    let d = if body.len() > 0 && body[0] == '+' { body.drop_first() } else { body };
    if body.len() == 0 || d.len() == 0 || !all_digits(d) || digits_value(d) > i64::MAX {
        Err(NumberFault::Invalid)
    } else if digits_value(d) != 0 && zeros_at_start(d) != 0 && !allow_leading_zero {
        Err(NumberFault::LeadingZero)
    } else {
        Ok((zeros_at_start(d), if negative { -digits_value(d) } else { digits_value(d) }))
    }
}

/// The text of a number cut into its integer part, fraction and exponent: at
/// the first `.`, then at the first `e` (or else `E`) after it. `None` when a
/// separator occurs once too often.
pub open spec fn number_parts(t: Seq<char>) -> Option<(Seq<char>, Option<Seq<char>>, Option<Seq<char>>)> {
    match index_of(t, '.') {
        Some(d) => fraction_parts(t, d),
        None => exponent_parts(t),
    }
}

/// [`number_parts`] when the first `.` of `t` is at `d`.
pub open spec fn fraction_parts(t: Seq<char>, d: int) -> Option<(Seq<char>, Option<Seq<char>>, Option<Seq<char>>)> {
    let rest = t.subrange(d + 1, t.len() as int);
    if index_of(rest, '.') is Some {
        None
    } else {
        let sep = if index_of(rest, 'e') is Some { 'e' } else { 'E' };
        match index_of(rest, sep) {
            Some(e) => {
                let exp = rest.subrange(e + 1, rest.len() as int);
                if index_of(exp, sep) is Some {
                    None
                } else {
                    Some((t.subrange(0, d), Some(rest.subrange(0, e)), Some(exp)))
                }
            },
            None => Some((t.subrange(0, d), Some(rest), None)),
        }
    }
}

/// [`number_parts`] when `t` holds no `.`.
pub open spec fn exponent_parts(t: Seq<char>) -> Option<(Seq<char>, Option<Seq<char>>, Option<Seq<char>>)> {
    let sep = if index_of(t, 'e') is Some { 'e' } else { 'E' };
    match index_of(t, sep) {
        Some(e) => {
            let exp = t.subrange(e + 1, t.len() as int);
            if index_of(exp, 'e') is Some || index_of(exp, 'E') is Some {
                None
            } else {
                Some((t.subrange(0, e), None, Some(exp)))
            }
        },
        None => Some((t, None, None)),
    }
}

/// The number that `t` writes: `(integer, (leading zeros of the fraction,
/// fraction digits), exponent)`, or why it is refused. The parts are checked
/// in the order integer, fraction, exponent.
pub open spec fn number_value(t: Seq<char>) -> Result<(i64, (u32, u64), i64), NumberFault> {
    match number_parts(t) {
        None => Err(NumberFault::Invalid),
        Some((int_part, frac_part, exp_part)) => match part_value(int_part, false) {
            Err(f) => Err(f),
            Ok((_, integer)) => {
                let fraction: Result<(u32, u64), NumberFault> = match frac_part {
                    None => Ok((0u32, 0u64)),
                    Some(f) => match part_value(f, true) {
                        Err(e) => Err(e),
                        Ok((zeros, v)) => if v < 0 || zeros > u32::MAX {
                            Err(NumberFault::Invalid)
                        } else {
                            Ok((zeros as u32, v as u64))
                        },
                    },
                };
                match fraction {
                    Err(e) => Err(e),
                    Ok(fr) => match exp_part {
                        None => Ok((integer as i64, fr, 0i64)),
                        Some(e) => match part_value(e, false) {
                            Err(f) => Err(f),
                            Ok((_, exponent)) => Ok((integer as i64, fr, exponent as i64)),
                        },
                    },
                }
            },
        },
    }
}


/// The first position of `c` in `t[lo..hi]`.
fn find_char(t: &Vec<char>, lo: usize, hi: usize, c: char) -> (r: Option<usize>)
    requires
        lo <= hi <= t@.len(),
    ensures
        match r {
            Some(k) => lo <= k < hi && index_of(t@.subrange(lo as int, hi as int), c) == Some(k - lo),
            None => index_of(t@.subrange(lo as int, hi as int), c) is None,
        },
{
    let ghost s = t@.subrange(lo as int, hi as int);
    reveal(index_of);
    let mut k: usize = lo;
    while k < hi
        invariant
            lo <= k <= hi,
            hi <= t@.len(),
            s == t@.subrange(lo as int, hi as int),
            forall|j: int| 0 <= j < k - lo ==> s[j] != c,
        decreases hi - k,
    {
        assert(s[k - lo] == t@[k as int]);
        if t[k] == c {
            let ghost i = (k - lo) as int;
            assert(s[i] == c);
            assert(0 <= i < s.len() && s[i] == c);
            assert(0 <= i < s.len() && s[i] == c && forall|j: int| 0 <= j < i ==> s[j] != c);
            reveal(index_of);
            assert(exists|w: int| 0 <= w < s.len() && s[w] == c && forall|j: int| 0 <= j < w ==> s[j] != c);
            assert(index_of(s, c) is Some);
            let ghost w = index_of(s, c)->0;
            assert(0 <= w < s.len() && s[w] == c && forall|j: int| 0 <= j < w ==> s[j] != c);
            assert(w == i) by {
                if w < i {
                    assert(s[w] != c);
                } else if w > i {
                    assert(s[i] != c);
                }
            }
            assert(index_of(s, c) == Some(i));
            return Some(k);
        }
        k = k + 1;
    }
    assert(!(exists|i: int| 0 <= i < s.len() && s[i] == c));
    None
}

proof fn lemma_digits_step(d: Seq<char>, k: int)
    requires
        0 <= k < d.len(),
    ensures
        digits_value(d.subrange(0, k + 1)) == digits_value(d.subrange(0, k)) * 10 + (d[k] as int - '0' as int),
{
    assert(d.subrange(0, k + 1).drop_last() =~= d.subrange(0, k));
}

proof fn lemma_digits_nonneg(d: Seq<char>)
    requires
        all_digits(d),
    ensures
        digits_value(d) >= 0,
    decreases d.len(),
{
    if d.len() > 0 {
        assert(all_digits(d.drop_last())) by {
            assert forall|k: int| 0 <= k < d.drop_last().len() implies '0' <= #[trigger] d.drop_last()[k] <= '9' by {
                assert(d.drop_last()[k] == d[k]);
            }
        }
        lemma_digits_nonneg(d.drop_last());
    }
}

proof fn lemma_zeros_step(d: Seq<char>, k: int)
    requires
        0 <= k < d.len(),
        forall|j: int| 0 <= j < k ==> d[j] == '0',
    ensures
        d[k] != '0' ==> zeros_at_start(d) == k,
        d[k] == '0' ==> zeros_at_start(d) >= k + 1,
    decreases k,
{
    if k > 0 {
        lemma_zeros_step(d.drop_first(), k - 1);
    }
}

proof fn lemma_zeros_all(d: Seq<char>)
    requires
        forall|j: int| 0 <= j < d.len() ==> d[j] == '0',
    ensures
        zeros_at_start(d) == d.len(),
    decreases d.len(),
{
    if d.len() > 0 {
        lemma_zeros_all(d.drop_first());
    }
}

proof fn lemma_zeros_le(d: Seq<char>)
    ensures
        zeros_at_start(d) <= d.len(),
    decreases d.len(),
{
    if d.len() > 0 && d[0] == '0' {
        lemma_zeros_le(d.drop_first());
    }
}

/// Reads one part of a number from `t[lo..hi]`, see [`part_value`].
fn parse_part(t: &Vec<char>, lo: usize, hi: usize, allow_leading_zero: bool) -> (r: Result<(u64, i64), NumberFault>)
    requires
        lo <= hi <= t@.len(),
    ensures
        match part_value(t@.subrange(lo as int, hi as int), allow_leading_zero) {
            Ok((z, v)) => r is Ok && r->Ok_0.0 == z && r->Ok_0.1 == v,
            Err(NumberFault::Invalid) => r matches Err(NumberFault::Invalid),
            Err(NumberFault::LeadingZero) => r matches Err(NumberFault::LeadingZero),
        },
{
    let ghost s = t@.subrange(lo as int, hi as int);
    let negative = lo < hi && t[lo] == '-';
    let start = if negative { lo + 1 } else { lo };
    let ghost body = if negative { s.drop_first() } else { s };
    assert(body =~= t@.subrange(start as int, hi as int));
    if start == hi {
        return Err(NumberFault::Invalid);
    }
    let first = if t[start] == '+' { start + 1 } else { start };
    let ghost d = t@.subrange(first as int, hi as int);
    assert(d =~= (if body.len() > 0 && body[0] == '+' { body.drop_first() } else { body }));
    if first == hi {
        return Err(NumberFault::Invalid);
    }
    let mut value: u64 = 0;
    let mut zeros: u64 = 0;
    let mut all_zero = true;
    let mut k: usize = first;
    while k < hi
        invariant
            first <= k <= hi,
            first < hi,
            hi <= t@.len(),
            d == t@.subrange(first as int, hi as int),
            s == t@.subrange(lo as int, hi as int),
            negative == (s.len() > 0 && s[0] == '-'),
            body == (if negative { s.drop_first() } else { s }),
            body.len() > 0,
            d == (if body.len() > 0 && body[0] == '+' { body.drop_first() } else { body }),
            all_digits(d.subrange(0, k - first)),
            value == digits_value(d.subrange(0, k - first)),
            value <= i64::MAX,
            all_zero == forall|j: int| 0 <= j < k - first ==> d[j] == '0',
            all_zero ==> zeros == k - first,
            !all_zero ==> zeros == zeros_at_start(d),
            zeros <= k - first,
        decreases hi - k,
    {
        let c = t[k];
        let ghost j = (k - first) as int;
        assert(d[j] == c);
        if !('0' <= c && c <= '9') {
            assert(!all_digits(d)) by {
                assert(!('0' <= d[j] <= '9'));
            }
            return Err(NumberFault::Invalid);
        }
        let digit = (c as u32 - '0' as u32) as u64;
        if value > (i64::MAX as u64 - digit) / 10 {
            proof {
                lemma_digits_step(d, j);
                assert(digits_value(d.subrange(0, j + 1)) > i64::MAX) by (nonlinear_arith)
                    requires
                        value > (i64::MAX as u64 - digit) / 10,
                        digits_value(d.subrange(0, j + 1)) == value * 10 + digit,
                        digit <= 9;
                if all_digits(d) {
                    lemma_prefix_value_le(d, j + 1);
                }
            }
            return Err(NumberFault::Invalid);
        }
        proof {
            lemma_digits_step(d, j);
            assert(value * 10 + digit <= i64::MAX) by (nonlinear_arith)
                requires
                    value <= (i64::MAX as u64 - digit) / 10,
                    digit <= 9;
            assert(all_digits(d.subrange(0, j + 1))) by {
                assert forall|m: int| 0 <= m < j + 1 implies '0' <= #[trigger] d.subrange(0, j + 1)[m] <= '9' by {
                    if m < j {
                        assert(d.subrange(0, j + 1)[m] == d.subrange(0, j)[m]);
                    }
                }
            }
            if all_zero {
                lemma_zeros_step(d, j);
            }
        }
        value = value * 10 + digit;
        if all_zero {
            if c == '0' {
                zeros = zeros + 1;
            } else {
                all_zero = false;
            }
        }
        k = k + 1;
    }
    proof {
        assert(d.subrange(0, k - first) =~= d);
        if all_zero {
            lemma_zeros_all(d);
        }
    }
    if value != 0 && zeros != 0 && !allow_leading_zero {
        return Err(NumberFault::LeadingZero);
    }
    let v = value as i64;
    Ok((zeros, if negative { -v } else { v }))
}

/// A prefix of a run of digits is worth no more than the run.
proof fn lemma_prefix_value_le(d: Seq<char>, k: int)
    requires
        0 <= k <= d.len(),
        all_digits(d),
    ensures
        digits_value(d.subrange(0, k)) <= digits_value(d),
    decreases d.len() - k,
{
    if k < d.len() {
        lemma_digits_step(d, k);
        assert(all_digits(d.subrange(0, k))) by {
            assert forall|m: int| 0 <= m < k implies '0' <= #[trigger] d.subrange(0, k)[m] <= '9' by {
                assert(d.subrange(0, k)[m] == d[m]);
            }
        }
        lemma_digits_nonneg(d.subrange(0, k));
        lemma_prefix_value_le(d, k + 1);
    } else {
        assert(d.subrange(0, k) =~= d);
    }
}


#[derive(Debug, Clone)]
pub enum ParseError<'src> {
    TokenizeError(TokenizeError<'src>),
    InvalidNumber(Span<'src>),
    UnclosedArray(Span<'src>),
    UnclosedObject(Span<'src>),
    IllegalArray(Span<'src>),
    IllegalObject(Span<'src>),
    LeftOverTokens(Span<'src>),
    InvalidKeyType(Span<'src>),
    ColonExpected(Span<'src>),
    IllegalLeadingZero(Span<'src>),
    ExtraColon(Span<'src>),
    ExtraComma(Span<'src>),
    UnopenedObject(Span<'src>),
    UnopenedArray(Span<'src>),
    NoMoreTokens,
}

impl<'src> ParseError<'src> {
    /// The span the error points at; a tokenizing error gives its own span.
    pub open spec fn span_spec(&self) -> Option<Span<'src>> {
        match self {
            ParseError::TokenizeError(e) => Some(e.span_spec()),
            ParseError::InvalidNumber(s) => Some(*s),
            ParseError::UnclosedArray(s) => Some(*s),
            ParseError::UnclosedObject(s) => Some(*s),
            ParseError::IllegalArray(s) => Some(*s),
            ParseError::IllegalObject(s) => Some(*s),
            ParseError::LeftOverTokens(s) => Some(*s),
            ParseError::InvalidKeyType(s) => Some(*s),
            ParseError::ColonExpected(s) => Some(*s),
            ParseError::IllegalLeadingZero(s) => Some(*s),
            ParseError::ExtraColon(s) => Some(*s),
            ParseError::ExtraComma(s) => Some(*s),
            ParseError::UnopenedObject(s) => Some(*s),
            ParseError::UnopenedArray(s) => Some(*s),
            ParseError::NoMoreTokens => None,
        }
    }

    pub fn span(&self) -> (r: Option<&Span<'src>>)
        ensures
            match r {
                Some(s) => self.span_spec() == Some(*s),
                None => self.span_spec() is None,
            },
    {
        match self {
            ParseError::InvalidNumber(span)
            | ParseError::UnclosedArray(span)
            | ParseError::UnclosedObject(span)
            | ParseError::IllegalArray(span)
            | ParseError::IllegalObject(span)
            | ParseError::LeftOverTokens(span)
            | ParseError::InvalidKeyType(span)
            | ParseError::ColonExpected(span)
            | ParseError::ExtraColon(span)
            | ParseError::ExtraComma(span)
            | ParseError::UnopenedObject(span)
            | ParseError::UnopenedArray(span)
            | ParseError::IllegalLeadingZero(span) => Some(span),
            ParseError::TokenizeError(error) => Some(error.span()),
            ParseError::NoMoreTokens => None,
        }
    }
}

impl<'src> From<TokenizeError<'src>> for ParseError<'src> {
    fn from(tok: TokenizeError<'src>) -> (r: ParseError<'src>)
        ensures
            r == ParseError::TokenizeError(tok),
    {
        ParseError::TokenizeError(tok)
    }
}

impl<'src> vstd::std_specs::convert::FromSpecImpl<TokenizeError<'src>> for ParseError<'src> {
    open spec fn obeys_from_spec() -> bool {
        true
    }

    open spec fn from_spec(v: TokenizeError<'src>) -> ParseError<'src> {
        ParseError::TokenizeError(v)
    }
}

/// Folds tokens into a JSON value.
pub struct Parser;

/// `b` bounds the part `s` of `t`.
pub open spec fn bounds_of(t: Seq<char>, b: (usize, usize), s: Seq<char>) -> bool {
    let (lo, hi) = b;
    lo <= hi <= t.len() && t.subrange(lo as int, hi as int) == s
}

/// `b` bounds the part `s` of `t`, or neither is there.
pub open spec fn opt_bounds_of(t: Seq<char>, b: Option<(usize, usize)>, s: Option<Seq<char>>) -> bool {
    match b {
        Some(bb) => s is Some && bounds_of(t, bb, s->0),
        None => s is None,
    }
}

/// Cuts `t` into integer part, fraction and exponent, see [`number_parts`];
/// each part is given by its bounds in `t`.
fn split_number(t: &Vec<char>) -> (r: Option<((usize, usize), Option<(usize, usize)>, Option<(usize, usize)>)>)
    ensures
        match number_parts(t@) {
            None => r is None,
            Some((i, f, e)) => match r {
                Some((ib, fb, eb)) => bounds_of(t@, ib, i) && opt_bounds_of(t@, fb, f) && opt_bounds_of(t@, eb, e),
                None => false,
            },
        },
{
    let n = t.len();
    assert(t@.subrange(0, n as int) =~= t@);
    match find_char(t, 0, n, '.') {
        Some(d) => split_after_dot(t, d),
        None => {
            let sep = if find_char(t, 0, n, 'e').is_some() { 'e' } else { 'E' };
            match find_char(t, 0, n, sep) {
                Some(e) => {
                    if find_char(t, e + 1, n, 'e').is_some() || find_char(t, e + 1, n, 'E').is_some() {
                        return None;
                    }
                    Some(((0, e), None, Some((e + 1, n))))
                },
                None => Some(((0, n), None, None)),
            }
        },
    }
}

/// [`split_number`] when the first `.` of `t` is at `d`.
fn split_after_dot(t: &Vec<char>, d: usize) -> (r: Option<((usize, usize), Option<(usize, usize)>, Option<(usize, usize)>)>)
    requires
        d < t@.len(),
    ensures
        match fraction_parts(t@, d as int) {
            None => r is None,
            Some((i, f, e)) => match r {
                Some((ib, fb, eb)) => bounds_of(t@, ib, i) && opt_bounds_of(t@, fb, f) && opt_bounds_of(t@, eb, e),
                None => false,
            },
        },
{
    let n = t.len();
    let ghost rest = t@.subrange(d + 1, n as int);
    if find_char(t, d + 1, n, '.').is_some() {
        return None;
    }
    let sep = if find_char(t, d + 1, n, 'e').is_some() { 'e' } else { 'E' };
    match find_char(t, d + 1, n, sep) {
        Some(e) => {
            proof {
                assert(rest.subrange(e - d, rest.len() as int) =~= t@.subrange(e + 1, n as int));
                assert(rest.subrange(0, e - d - 1) =~= t@.subrange(d + 1, e as int));
            }
            if find_char(t, e + 1, n, sep).is_some() {
                return None;
            }
            Some(((0, d), Some((d + 1, e)), Some((e + 1, n))))
        },
        None => Some(((0, d), Some((d + 1, n)), None)),
    }
}

impl Parser {
    /// The number that the literal text `value` writes; `input` is its span.
    pub fn parse_number<'src>(input: &Span<'src>, value: &String) -> (r: Result<Json, ParseError<'src>>)
        ensures
            match number_value(value@) {
                Ok((integer, fraction, exponent)) => r == Ok::<Json, ParseError<'src>>(
                    Json::Number { integer, fraction, exponent }),
                Err(NumberFault::Invalid) => r == Err::<Json, ParseError<'src>>(ParseError::InvalidNumber(*input)),
                Err(NumberFault::LeadingZero) => r == Err::<Json, ParseError<'src>>(ParseError::IllegalLeadingZero(*input)),
            },
    {
        let t = collect_chars(value.as_str().chars());
        assert(t@ == value@);
        let (ib, fb, eb) = match split_number(&t) {
            Some(parts) => parts,
            None => return Err(ParseError::InvalidNumber(input.copy())),
        };
        let integer = match parse_part(&t, ib.0, ib.1, false) {
            Ok((_, v)) => v,
            Err(NumberFault::Invalid) => return Err(ParseError::InvalidNumber(input.copy())),
            Err(NumberFault::LeadingZero) => return Err(ParseError::IllegalLeadingZero(input.copy())),
        };
        let fraction: (u32, u64) = match fb {
            None => (0, 0),
            Some((lo, hi)) => match parse_part(&t, lo, hi, true) {
                Ok((zeros, v)) => {
                    if v < 0 || zeros > u32::MAX as u64 {
                        return Err(ParseError::InvalidNumber(input.copy()));
                    }
                    (zeros as u32, v as u64)
                },
                Err(NumberFault::Invalid) => return Err(ParseError::InvalidNumber(input.copy())),
                Err(NumberFault::LeadingZero) => return Err(ParseError::IllegalLeadingZero(input.copy())),
            },
        };
        let exponent: i64 = match eb {
            None => 0,
            Some((lo, hi)) => match parse_part(&t, lo, hi, false) {
                Ok((_, v)) => v,
                Err(NumberFault::Invalid) => return Err(ParseError::InvalidNumber(input.copy())),
                Err(NumberFault::LeadingZero) => return Err(ParseError::IllegalLeadingZero(input.copy())),
            },
        };
        Ok(Json::Number { integer, fraction, exponent })
    }
}


/// What a value that starts with `t` gives, when `t` alone decides it: a
/// literal, a stray comma (no value), or an error. `None` for the start of an
/// array or an object.
pub open spec fn scalar_outcome<'src>(t: Token<'src>) -> Option<Result<Option<Json>, ParseError<'src>>> {
    match t {
        Token::Literal(Literal::Number(span, text)) => Some(match number_value(text@) {
            Ok((integer, fraction, exponent)) => Ok(Some(Json::Number { integer, fraction, exponent })),
            Err(NumberFault::Invalid) => Err(ParseError::InvalidNumber(span)),
            Err(NumberFault::LeadingZero) => Err(ParseError::IllegalLeadingZero(span)),
        }),
        Token::Literal(Literal::String(_, s)) => Some(Ok(Some(Json::String(s)))),
        Token::Literal(Literal::Null(_)) => Some(Ok(Some(Json::Null))),
        Token::Literal(Literal::False(_)) => Some(Ok(Some(Json::Boolean(false)))),
        Token::Literal(Literal::True(_)) => Some(Ok(Some(Json::Boolean(true)))),
        Token::Whitespace(_) => Some(Ok(None)),
        Token::Comma(_) => Some(Ok(None)),
        Token::Colon(span) => Some(Err(ParseError::ExtraColon(span))),
        Token::ObjectEnd(span) => Some(Err(ParseError::UnopenedObject(span))),
        Token::ArrayEnd(span) => Some(Err(ParseError::UnopenedArray(span))),
        Token::ArrayStart(_) => None,
        Token::ObjectStart(_) => None,
    }
}

/// The tokens that are not whitespace.
pub open spec fn significant<'src>(tokens: Seq<Token<'src>>) -> Seq<Token<'src>> {
    tokens.filter(|t: Token<'src>| !(t is Whitespace))
}

/// Every index in `idx` is below `n`.
pub open spec fn indexes_within(idx: Seq<usize>, n: nat) -> bool {
    forall|k: int| 0 <= k < idx.len() ==> #[trigger] idx[k] < n
}

/// The tokens at the indexes `idx`.
pub open spec fn picked<'src>(tokens: Seq<Token<'src>>, idx: Seq<usize>) -> Seq<Token<'src>> {
    idx.map_values(|k: usize| tokens[k as int])
}

/// The members `acc` with the member `p` added: a name already there gets the
/// new value in place.
pub open spec fn insert_member(acc: Seq<(String, Json)>, p: (String, Json)) -> Seq<(String, Json)> {
    if exists|i: int| first_member(acc, p.0@, i) {
        acc.update(choose|i: int| first_member(acc, p.0@, i), p)
    } else {
        acc.push(p)
    }
}

/// The members of an object whose members are written as `pairs`, in order.
pub open spec fn folded(pairs: Seq<(String, Json)>) -> Seq<(String, Json)>
    decreases pairs.len(),
{
    if pairs.len() == 0 {
        Seq::empty()
    } else {
        insert_member(folded(pairs.drop_last()), pairs.last())
    }
}

/// `sig[p]` is the name `k` and `sig[p + 1]` a colon.
pub open spec fn key_colon<'src>(sig: Seq<Token<'src>>, p: int, k: String) -> bool {
    &&& 0 <= p && p + 1 < sig.len()
    &&& sig[p] matches Token::Literal(Literal::String(_, name)) && name@ == k@
    &&& sig[p + 1] is Colon
}

/// The token `t` alone writes the value `j` (a string by its characters).
pub open spec fn scalar_value<'src>(t: Token<'src>, j: Json) -> bool {
    match t {
        Token::Literal(Literal::String(_, s)) => j matches Json::String(x) && x@ == s@,
        _ => scalar_outcome(t) == Some(Ok::<Option<Json>, ParseError<'src>>(Some(j))),
    }
}

/// `sig[pos..end]` writes the value `j`.
pub open spec fn value_at<'src>(sig: Seq<Token<'src>>, pos: int, j: Json, end: int) -> bool
    decreases end - pos, 0nat,
{
    if 0 <= pos < end <= sig.len() {
        match sig[pos] {
            Token::ArrayStart(_) => pos + 1 <= end - 1 && sig[end - 1] is ArrayEnd && match j {
                Json::Array(v) => elements_upto(sig, pos + 1, v@, end - 1),
                _ => false,
            },
            Token::ObjectStart(_) => pos + 1 <= end - 1 && sig[end - 1] is ObjectEnd && match j {
                Json::Object(m) => exists|pairs: Seq<(String, Json)>| members_upto(sig, pos + 1, pairs, end - 1)
                    && m@ == folded(pairs),
                _ => false,
            },
            _ => scalar_value(sig[pos], j) && end == pos + 1,
        }
    } else {
        false
    }
}

/// `sig[p0..e]` writes the values `items`, separated by commas.
pub open spec fn elements_upto<'src>(sig: Seq<Token<'src>>, p0: int, items: Seq<Json>, e: int) -> bool
    decreases e - p0, 1nat,
{
    if items.len() == 0 {
        e == p0
    } else if items.len() == 1 {
        p0 < e && value_at(sig, p0, items[0], e)
    } else {
        exists|q: int| #![trigger sig[q]] p0 <= q < e && elements_upto(sig, p0, items.drop_last(), q) && q < sig.len()
            && sig[q] is Comma && value_at(sig, q + 1, items.last(), e)
    }
}

/// `sig[p0..e]` writes the members `pairs` (name, colon, value), separated by
/// commas.
pub open spec fn members_upto<'src>(sig: Seq<Token<'src>>, p0: int, pairs: Seq<(String, Json)>, e: int) -> bool
    decreases e - p0, 1nat,
{
    if pairs.len() == 0 {
        e == p0
    } else if pairs.len() == 1 {
        p0 + 2 < e && key_colon(sig, p0, pairs[0].0) && value_at(sig, p0 + 2, pairs[0].1, e)
    } else {
        exists|q: int| #![trigger sig[q]] p0 <= q < e && members_upto(sig, p0, pairs.drop_last(), q) && q < sig.len()
            && sig[q] is Comma && q + 3 < e && key_colon(sig, q + 1, pairs.last().0)
            && value_at(sig, q + 3, pairs.last().1, e)
    }
}

/// `sig[at..e]` writes the values `items`, each after a comma.
pub open spec fn rest_elements<'src>(sig: Seq<Token<'src>>, at: int, items: Seq<Json>, e: int) -> bool
    decreases items.len(),
{
    if items.len() == 0 {
        at == e
    } else {
        &&& 0 <= at < sig.len()
        &&& sig[at] is Comma
        &&& exists|e1: int| #[trigger] value_at(sig, at + 1, items[0], e1) && rest_elements(sig, e1, items.drop_first(), e)
    }
}

/// `sig[at..e]` writes the members `pairs`, each after a comma.
pub open spec fn rest_members<'src>(sig: Seq<Token<'src>>, at: int, pairs: Seq<(String, Json)>, e: int) -> bool
    decreases pairs.len(),
{
    if pairs.len() == 0 {
        at == e
    } else {
        &&& 0 <= at < sig.len()
        &&& sig[at] is Comma
        &&& key_colon(sig, at + 1, pairs[0].0)
        &&& exists|e1: int| #[trigger] value_at(sig, at + 3, pairs[0].1, e1) && rest_members(sig, e1, pairs.drop_first(), e)
    }
}

/// A member `m` written from `p` (name, colon, value ending at `e1`), then
/// the members `rest` up to `e`.
pub open spec fn member_then<'src>(sig: Seq<Token<'src>>, p: int, m: (String, Json), e1: int, rest: Seq<(String, Json)>, e: int) -> bool {
    key_colon(sig, p, m.0) && value_at(sig, p + 2, m.1, e1) && rest_members(sig, e1, rest, e)
}

proof fn lemma_rest_elements_push<'src>(sig: Seq<Token<'src>>, at: int, xs: Seq<Json>, q: int, y: Json, e: int)
    requires
        rest_elements(sig, at, xs, q),
        0 <= q < sig.len(),
        sig[q] is Comma,
        value_at(sig, q + 1, y, e),
    ensures
        rest_elements(sig, at, xs.push(y), e),
    decreases xs.len(),
{
    let ys = xs.push(y);
    if xs.len() == 0 {
        assert(ys[0] == y);
        assert(ys.drop_first() =~= Seq::<Json>::empty());
        assert(rest_elements(sig, e, ys.drop_first(), e));
        assert(value_at(sig, at + 1, ys[0], e));
    } else {
        let e1 = choose|e1: int| #[trigger] value_at(sig, at + 1, xs[0], e1) && rest_elements(sig, e1, xs.drop_first(), q);
        lemma_rest_elements_push(sig, e1, xs.drop_first(), q, y, e);
        assert(xs.drop_first().push(y) =~= ys.drop_first());
        assert(ys[0] == xs[0]);
        assert(value_at(sig, at + 1, ys[0], e1) && rest_elements(sig, e1, ys.drop_first(), e));
    }
}

/// The elements of an array, read from the front.
proof fn lemma_elements_forward<'src>(sig: Seq<Token<'src>>, p0: int, items: Seq<Json>, e: int)
    requires
        elements_upto(sig, p0, items, e),
        items.len() >= 1,
    ensures
        exists|e1: int| #[trigger] value_at(sig, p0, items[0], e1) && rest_elements(sig, e1, items.drop_first(), e),
    decreases items.len(),
{
    if items.len() == 1 {
        assert(items.drop_first() =~= Seq::<Json>::empty());
        assert(rest_elements(sig, e, items.drop_first(), e));
        assert(value_at(sig, p0, items[0], e));
    } else {
        let q = choose|q: int| #![trigger sig[q]] p0 <= q < e && elements_upto(sig, p0, items.drop_last(), q) && q < sig.len()
            && sig[q] is Comma && value_at(sig, q + 1, items.last(), e);
        lemma_elements_forward(sig, p0, items.drop_last(), q);
        let init = items.drop_last();
        let e1 = choose|e1: int| #[trigger] value_at(sig, p0, init[0], e1) && rest_elements(sig, e1, init.drop_first(), q);
        lemma_rest_elements_push(sig, e1, init.drop_first(), q, items.last(), e);
        assert(init.drop_first().push(items.last()) =~= items.drop_first());
        assert(init[0] == items[0]);
        assert(value_at(sig, p0, items[0], e1) && rest_elements(sig, e1, items.drop_first(), e));
    }
}

proof fn lemma_rest_members_push<'src>(sig: Seq<Token<'src>>, at: int, xs: Seq<(String, Json)>, q: int, y: (String, Json), e: int)
    requires
        rest_members(sig, at, xs, q),
        0 <= q < sig.len(),
        sig[q] is Comma,
        key_colon(sig, q + 1, y.0),
        value_at(sig, q + 3, y.1, e),
    ensures
        rest_members(sig, at, xs.push(y), e),
    decreases xs.len(),
{
    let ys = xs.push(y);
    if xs.len() == 0 {
        assert(ys[0] == y);
        assert(ys.drop_first() =~= Seq::<(String, Json)>::empty());
        assert(rest_members(sig, e, ys.drop_first(), e));
        assert(value_at(sig, at + 3, ys[0].1, e));
    } else {
        let e1 = choose|e1: int| #[trigger] value_at(sig, at + 3, xs[0].1, e1) && rest_members(sig, e1, xs.drop_first(), q);
        lemma_rest_members_push(sig, e1, xs.drop_first(), q, y, e);
        assert(xs.drop_first().push(y) =~= ys.drop_first());
        assert(ys[0] == xs[0]);
        assert(value_at(sig, at + 3, ys[0].1, e1) && rest_members(sig, e1, ys.drop_first(), e));
    }
}

/// The members of an object, read from the front.
proof fn lemma_members_forward<'src>(sig: Seq<Token<'src>>, p0: int, pairs: Seq<(String, Json)>, e: int)
    requires
        members_upto(sig, p0, pairs, e),
        pairs.len() >= 1,
    ensures
        key_colon(sig, p0, pairs[0].0),
        exists|e1: int| #[trigger] value_at(sig, p0 + 2, pairs[0].1, e1) && rest_members(sig, e1, pairs.drop_first(), e),
    decreases pairs.len(),
{
    if pairs.len() == 1 {
        assert(pairs.drop_first() =~= Seq::<(String, Json)>::empty());
        assert(rest_members(sig, e, pairs.drop_first(), e));
        assert(value_at(sig, p0 + 2, pairs[0].1, e));
    } else {
        let q = choose|q: int| #![trigger sig[q]] p0 <= q < e && members_upto(sig, p0, pairs.drop_last(), q) && q < sig.len()
            && sig[q] is Comma && q + 3 < e && key_colon(sig, q + 1, pairs.last().0)
            && value_at(sig, q + 3, pairs.last().1, e);
        lemma_members_forward(sig, p0, pairs.drop_last(), q);
        let init = pairs.drop_last();
        let e1 = choose|e1: int| #[trigger] value_at(sig, p0 + 2, init[0].1, e1) && rest_members(sig, e1, init.drop_first(), q);
        lemma_rest_members_push(sig, e1, init.drop_first(), q, pairs.last(), e);
        assert(init.drop_first().push(pairs.last()) =~= pairs.drop_first());
        assert(init[0] == pairs[0]);
        assert(value_at(sig, p0 + 2, pairs[0].1, e1) && rest_members(sig, e1, pairs.drop_first(), e));
    }
}

/// Equivalent token sequences have equivalent significant tokens.
pub proof fn lemma_significant_equiv<'src>(a: Seq<Token<'src>>, b: Seq<Token<'src>>)
    requires
        seq_equiv(a, b),
    ensures
        seq_equiv(significant(a), significant(b)),
    decreases a.len(),
{
    reveal(Seq::filter);
    if a.len() > 0 {
        let (ia, ib) = (a.drop_last(), b.drop_last());
        assert(seq_equiv(ia, ib)) by {
            assert forall|k: int| 0 <= k < ia.len() implies tok_equiv(#[trigger] ia[k], ib[k]) by {
                assert(tok_equiv(a[k], b[k]));
            }
        }
        lemma_significant_equiv(ia, ib);
        assert(tok_equiv(a[a.len() - 1], b[b.len() - 1]));
        let (sa, sb) = (significant(ia), significant(ib));
        if !(a.last() is Whitespace) {
            let (ra, rb) = (sa.push(a.last()), sb.push(b.last()));
            assert forall|k: int| 0 <= k < ra.len() implies tok_equiv(#[trigger] ra[k], rb[k]) by {
                if k < sa.len() {
                    assert(tok_equiv(sa[k], sb[k]));
                }
            }
        }
    }
}

proof fn lemma_value_at_equiv<'src>(s1: Seq<Token<'src>>, s2: Seq<Token<'src>>, pos: int, j: Json, end: int)
    requires
        seq_equiv(s1, s2),
        value_at(s1, pos, j, end),
    ensures
        value_at(s2, pos, j, end),
    decreases end - pos, 0nat,
{
    assert(tok_equiv(s1[pos], s2[pos]));
    assert(tok_equiv(s1[end - 1], s2[end - 1]));
    match s1[pos] {
        Token::ArrayStart(_) => {
            lemma_elements_equiv(s1, s2, pos + 1, j->Array_0@, end - 1);
        },
        Token::ObjectStart(_) => {
            let pairs = choose|pairs: Seq<(String, Json)>| members_upto(s1, pos + 1, pairs, end - 1)
                && j->Object_0@ == folded(pairs);
            lemma_members_equiv(s1, s2, pos + 1, pairs, end - 1);
        },
        _ => {},
    }
}

proof fn lemma_elements_equiv<'src>(s1: Seq<Token<'src>>, s2: Seq<Token<'src>>, p0: int, items: Seq<Json>, e: int)
    requires
        seq_equiv(s1, s2),
        0 <= p0,
        elements_upto(s1, p0, items, e),
    ensures
        elements_upto(s2, p0, items, e),
    decreases e - p0, 1nat,
{
    if items.len() == 1 {
        lemma_value_at_equiv(s1, s2, p0, items[0], e);
    } else if items.len() > 1 {
        assert(exists|q: int| #![trigger s1[q]] p0 <= q < e && elements_upto(s1, p0, items.drop_last(), q)
            && q < s1.len() && s1[q] is Comma && value_at(s1, q + 1, items.last(), e));
        let q = choose|q: int| #![trigger s1[q]] p0 <= q < e && elements_upto(s1, p0, items.drop_last(), q)
            && q < s1.len() && s1[q] is Comma && value_at(s1, q + 1, items.last(), e);
        lemma_elements_equiv(s1, s2, p0, items.drop_last(), q);
        lemma_value_at_equiv(s1, s2, q + 1, items.last(), e);
        assert(tok_equiv(s1[q], s2[q]));
        assert(p0 <= q < e && elements_upto(s2, p0, items.drop_last(), q) && q < s2.len() && s2[q] is Comma
            && value_at(s2, q + 1, items.last(), e));
    }
}

proof fn lemma_members_equiv<'src>(s1: Seq<Token<'src>>, s2: Seq<Token<'src>>, p0: int, pairs: Seq<(String, Json)>, e: int)
    requires
        seq_equiv(s1, s2),
        0 <= p0,
        members_upto(s1, p0, pairs, e),
    ensures
        members_upto(s2, p0, pairs, e),
    decreases e - p0, 1nat,
{
    if pairs.len() == 1 {
        assert(tok_equiv(s1[p0], s2[p0]) && tok_equiv(s1[p0 + 1], s2[p0 + 1]));
        lemma_value_at_equiv(s1, s2, p0 + 2, pairs[0].1, e);
    } else if pairs.len() > 1 {
        let q = choose|q: int| #![trigger s1[q]] p0 <= q < e && members_upto(s1, p0, pairs.drop_last(), q) && q < s1.len()
            && s1[q] is Comma && q + 3 < e && key_colon(s1, q + 1, pairs.last().0)
            && value_at(s1, q + 3, pairs.last().1, e);
        lemma_members_equiv(s1, s2, p0, pairs.drop_last(), q);
        lemma_value_at_equiv(s1, s2, q + 3, pairs.last().1, e);
        assert(tok_equiv(s1[q], s2[q]) && tok_equiv(s1[q + 1], s2[q + 1]) && tok_equiv(s1[q + 2], s2[q + 2]));
        assert(p0 <= q < e && members_upto(s2, p0, pairs.drop_last(), q) && q < s2.len()
            && s2[q] is Comma && q + 3 < e && key_colon(s2, q + 1, pairs.last().0)
            && value_at(s2, q + 3, pairs.last().1, e));
    }
}

/// Reading a value from tokens depends only on their kinds and texts.
pub proof fn lemma_reads_same<'src>(s1: Seq<Token<'src>>, s2: Seq<Token<'src>>, j: Json)
    requires
        seq_equiv(s1, s2),
        value_at(s1, 0, j, s1.len() as int),
    ensures
        value_at(s2, 0, j, s2.len() as int),
{
    lemma_value_at_equiv(s1, s2, 0, j, s1.len() as int);
}

/// Reading the array that opens at `sig[open]` stops at `q` after the
/// elements `items`: the tokens end there, or a token other than a comma or
/// `]` follows an element.
pub open spec fn array_stuck<'src>(sig: Seq<Token<'src>>, open: int, items: Seq<Json>, q: int) -> bool {
    &&& elements_upto(sig, open + 1, items, q)
    &&& q == sig.len() || (items.len() > 0 && q < sig.len() && !(sig[q] is Comma) && !(sig[q] is ArrayEnd))
}

/// The error for an array that opens at `sig[open]` and stops at `q`.
pub open spec fn array_error<'src>(sig: Seq<Token<'src>>, open: int, q: int) -> ParseError<'src> {
    if q >= sig.len() {
        ParseError::UnclosedArray(sig[open].span_spec())
    } else {
        ParseError::ExtraComma(sig[q].span_spec())
    }
}

/// The error, if any, for an object that opens at `sig[open]` when the next
/// member (the first one when `first`) or its end is expected at `q`.
pub open spec fn object_error_at<'src>(sig: Seq<Token<'src>>, open: int, first: bool, q: int) -> Option<ParseError<'src>> {
    let start = sig[open].span_spec();
    if q >= sig.len() {
        Some(ParseError::UnclosedObject(start))
    } else if sig[q] is ObjectEnd {
        None
    } else if first {
        if !(sig[q] matches Token::Literal(Literal::String(..))) {
            Some(ParseError::InvalidKeyType(sig[q].span_spec()))
        } else if q + 1 >= sig.len() {
            Some(ParseError::UnclosedObject(start))
        } else if !(sig[q + 1] is Colon) {
            Some(ParseError::ColonExpected(sig[q + 1].span_spec()))
        } else {
            None
        }
    } else {
        if !(sig[q] is Comma) || q + 1 >= sig.len() {
            Some(ParseError::IllegalObject(sig[q].span_spec()))
        } else if !(sig[q + 1] matches Token::Literal(Literal::String(..))) {
            Some(ParseError::InvalidKeyType(sig[q].span_spec()))
        } else if q + 2 >= sig.len() {
            Some(ParseError::UnclosedObject(start))
        } else if !(sig[q + 2] is Colon) {
            Some(ParseError::ColonExpected(sig[q + 2].span_spec()))
        } else {
            None
        }
    }
}

/// Reading the object that opens at `sig[open]` stops at `q` after the
/// members `pairs`, with the error that [`object_error_at`] gives.
pub open spec fn object_stuck<'src>(sig: Seq<Token<'src>>, open: int, pairs: Seq<(String, Json)>, q: int) -> bool {
    members_upto(sig, open + 1, pairs, q) && object_error_at(sig, open, pairs.len() == 0, q) is Some
}

/// Outcome of reading one value at `pos`.
pub open spec fn value_read<'src>(tokens: Seq<Token<'src>>, toks: Seq<usize>, pos: int, r: Result<(Option<Json>, usize), ParseError<'src>>) -> bool {
    &&& pos >= toks.len() ==> r == Err::<(Option<Json>, usize), ParseError<'src>>(ParseError::NoMoreTokens)
    &&& pos < toks.len() ==> match scalar_outcome(tokens[toks[pos] as int]) {
        Some(Ok(v)) => r == Ok::<(Option<Json>, usize), ParseError<'src>>((v, (pos + 1) as usize)),
        Some(Err(e)) => r == Err::<(Option<Json>, usize), ParseError<'src>>(e),
        None => r is Ok ==> r->Ok_0.0 is Some && (tokens[toks[pos] as int] is ArrayStart ==> r->Ok_0.0->0 is Array)
            && (tokens[toks[pos] as int] is ObjectStart ==> r->Ok_0.0->0 is Object),
    }
    &&& r is Ok ==> pos < r->Ok_0.1 <= toks.len() && (r->Ok_0.0 is Some ==> wf(r->Ok_0.0->0))
    &&& r matches Ok((Some(j), next)) ==> value_at(picked(tokens, toks), pos, j, next as int)
    &&& forall|j: Json, e: int| #[trigger] value_at(picked(tokens, toks), pos, j, e)
        ==> (r matches Ok((Some(_), next)) && next == e)
    &&& forall|items: Seq<Json>, q: int| 0 <= pos < toks.len() && tokens[toks[pos] as int] is ArrayStart
        && #[trigger] array_stuck(picked(tokens, toks), pos, items, q)
        ==> r == Err::<(Option<Json>, usize), ParseError<'src>>(array_error(picked(tokens, toks), pos, q))
    &&& forall|pairs: Seq<(String, Json)>, q: int| 0 <= pos < toks.len() && tokens[toks[pos] as int] is ObjectStart
        && #[trigger] object_stuck(picked(tokens, toks), pos, pairs, q)
        ==> r == Err::<(Option<Json>, usize), ParseError<'src>>(object_error_at(picked(tokens, toks), pos, pairs.len() == 0, q)->0)
}

impl Parser {
    /// The value that `tokens_in` write, whitespace aside: `None` when they
    /// hold nothing else, or only a comma. It succeeds with a value exactly
    /// when the tokens write one, see [`value_at`].
    pub fn parse_tokens<'src>(tokens_in: &'src [Token<'src>]) -> (r: Result<Option<Json>, ParseError<'src>>)
        ensures
            ({
                let sig = significant(tokens_in@);
                &&& sig.len() == 0 ==> r == Ok::<Option<Json>, ParseError<'src>>(None)
                &&& sig.len() > 0 ==> match scalar_outcome(sig[0]) {
                    Some(Err(e)) => r == Err::<Option<Json>, ParseError<'src>>(e),
                    Some(Ok(v)) => if sig.len() == 1 {
                        r == Ok::<Option<Json>, ParseError<'src>>(v)
                    } else {
                        r == Err::<Option<Json>, ParseError<'src>>(ParseError::LeftOverTokens(sig[1].span_spec()))
                    },
                    None => r is Ok ==> r->Ok_0 is Some && (sig[0] is ArrayStart ==> r->Ok_0->0 is Array)
                        && (sig[0] is ObjectStart ==> r->Ok_0->0 is Object),
                }
                &&& r matches Ok(Some(j)) ==> wf(j) && value_at(sig, 0, j, sig.len() as int)
                &&& (exists|j: Json| #[trigger] value_at(sig, 0, j, sig.len() as int)) ==> (r matches Ok(Some(_)))
                &&& forall|j: Json, e: int| #[trigger] value_at(sig, 0, j, e) && e < sig.len()
                    ==> r == Err::<Option<Json>, ParseError<'src>>(ParseError::LeftOverTokens(sig[e].span_spec()))
                &&& forall|items: Seq<Json>, q: int| sig.len() > 0 && sig[0] is ArrayStart && #[trigger] array_stuck(sig, 0, items, q)
                    ==> r == Err::<Option<Json>, ParseError<'src>>(array_error(sig, 0, q))
                &&& forall|pairs: Seq<(String, Json)>, q: int| sig.len() > 0 && sig[0] is ObjectStart
                    && #[trigger] object_stuck(sig, 0, pairs, q)
                    ==> r == Err::<Option<Json>, ParseError<'src>>(object_error_at(sig, 0, pairs.len() == 0, q)->0)
            }),
    {
        let mut toks: Vec<usize> = Vec::new();
        let mut i: usize = 0;
        while i < tokens_in.len()
            invariant
                i <= tokens_in@.len(),
                indexes_within(toks@, tokens_in@.len()),
                picked(tokens_in@, toks@) == significant(tokens_in@.take(i as int)),
            decreases tokens_in@.len() - i,
        {
            proof {
                assert(tokens_in@.take(i as int + 1).drop_last() =~= tokens_in@.take(i as int));
                reveal(Seq::filter);
            }
            match &tokens_in[i] {
                Token::Whitespace(_) => {},
                _ => {
                    let ghost before = toks@;
                    toks.push(i);
                    assert(picked(tokens_in@, toks@) =~= picked(tokens_in@, before).push(tokens_in@[i as int]));
                },
            }
            i = i + 1;
        }
        assert(tokens_in@.take(i as int) =~= tokens_in@);
        let ghost sig = significant(tokens_in@);
        assert(sig.len() == toks@.len());
        if toks.len() == 0 {
            return Ok(None);
        }
        assert(sig[0] == tokens_in@[toks@[0] as int]);
        let (result, next) = Self::parse_first_token(tokens_in, &toks, 0)?;
        if next < toks.len() {
            assert(sig[1] == tokens_in@[toks@[1] as int]);
            Err(ParseError::LeftOverTokens(tokens_in[toks[next]].span()))
        } else {
            Ok(result)
        }
    }

    /// Reads one value starting at `pos`.
    fn parse_first_token<'src>(tokens: &[Token<'src>], toks: &Vec<usize>, pos: usize) -> (r: Result<(Option<Json>, usize), ParseError<'src>>)
        requires
            indexes_within(toks@, tokens@.len()),
        ensures
            value_read(tokens@, toks@, pos as int, r),
        decreases toks@.len() - pos, 1nat,
    {
        if pos >= toks.len() {
            return Err(ParseError::NoMoreTokens);
        }
        let token = &tokens[toks[pos]];
        let value = match token {
            Token::Literal(Literal::Number(span, value)) => match Self::parse_number(span, value) {
                Ok(v) => Some(v),
                Err(e) => return Err(e),
            },
            Token::Literal(Literal::String(_, value)) => Some(Json::String(value.clone())),
            Token::Literal(Literal::Null(_)) => Some(Json::Null),
            Token::Literal(Literal::False(_)) => Some(Json::Boolean(false)),
            Token::Literal(Literal::True(_)) => Some(Json::Boolean(true)),
            Token::Whitespace(_) => None,
            Token::ArrayStart(_) => return Self::parse_array(tokens, toks, pos),
            Token::ObjectStart(_) => return Self::parse_object(tokens, toks, pos),
            Token::Colon(span) => return Err(ParseError::ExtraColon(span.copy())),
            Token::Comma(_) => None,
            Token::ObjectEnd(span) => return Err(ParseError::UnopenedObject(span.copy())),
            Token::ArrayEnd(span) => return Err(ParseError::UnopenedArray(span.copy())),
        };
        Ok((value, pos + 1))
    }

    /// Reads an array whose `[` is at `open`.
    fn parse_array<'src>(tokens: &[Token<'src>], toks: &Vec<usize>, open: usize) -> (r: Result<(Option<Json>, usize), ParseError<'src>>)
        requires
            indexes_within(toks@, tokens@.len()),
            open < toks@.len(),
            tokens@[toks@[open as int] as int] is ArrayStart,
        ensures
            r is Ok ==> open < r->Ok_0.1 <= toks@.len() && r->Ok_0.0 is Some && r->Ok_0.0->0 is Array
                && wf(r->Ok_0.0->0) && value_at(picked(tokens@, toks@), open as int, r->Ok_0.0->0, r->Ok_0.1 as int),
            forall|j: Json, e: int| #[trigger] value_at(picked(tokens@, toks@), open as int, j, e)
                ==> r is Ok && r->Ok_0.1 == e,
            forall|items: Seq<Json>, q: int| #[trigger] array_stuck(picked(tokens@, toks@), open as int, items, q)
                ==> r == Err::<(Option<Json>, usize), ParseError<'src>>(array_error(picked(tokens@, toks@), open as int, q)),
        decreases toks@.len() - open, 0nat,
    {
        let start = tokens[toks[open]].span();
        let ghost sig = picked(tokens@, toks@);
        let mut data: Vec<Json> = Vec::new();
        let n = toks.len();
        let mut at: usize = open + 1;
        assert(sig[open as int] == tokens@[toks@[open as int] as int]);
        loop
            invariant_except_break
                elements_upto(sig, open + 1, data@, at as int),
                forall|items: Seq<Json>, q: int| #[trigger] array_stuck(sig, open as int, items, q) ==> if data@.len() == 0 {
                    at == open + 1
                } else {
                    exists|rest: Seq<Json>| #[trigger] rest_elements(sig, at as int, rest, q)
                },
                forall|j: Json, e: int| #[trigger] value_at(sig, open as int, j, e) ==> e <= sig.len()
                    && sig[e - 1] is ArrayEnd && j is Array && if data@.len() == 0 {
                        at == open + 1 && elements_upto(sig, open + 1, j->Array_0@, e - 1)
                    } else {
                        exists|items: Seq<Json>| #[trigger] rest_elements(sig, at as int, items, e - 1)
                    },
            invariant
                open < at <= toks@.len(),
                indexes_within(toks@, tokens@.len()),
                sig == picked(tokens@, toks@),
                sig[open as int] is ArrayStart,
                start == sig[open as int].span_spec(),
                forall|i: int| #![trigger data@[i]] 0 <= i < data@.len() ==> wf(data@[i]),
            ensures
                open + 1 < at,
                elements_upto(sig, open + 1, data@, at - 1),
                sig[at - 1] is ArrayEnd,
                forall|j: Json, e: int| #[trigger] value_at(sig, open as int, j, e) ==> at == e,
                forall|items: Seq<Json>, q: int| #[trigger] array_stuck(sig, open as int, items, q) ==> false,
            decreases toks@.len() - at,
        {
            let ghost last = at as int;
            if data.len() == 0 {
                if at >= toks.len() {
                    proof {
                        assert forall|items: Seq<Json>, q: int| #[trigger] array_stuck(sig, open as int, items, q)
                            implies q >= sig.len() by {
                            if items.len() > 0 {
                                lemma_elements_forward(sig, open + 1, items, q);
                            }
                        }
                    }
                    return Err(ParseError::UnclosedArray(start));
                }
                assert(sig[at as int] == tokens@[toks@[at as int] as int]);
                if let Token::ArrayEnd(_) = &tokens[toks[at]] {
                    proof {
                        assert forall|j: Json, e: int| #[trigger] value_at(sig, open as int, j, e) implies at + 1 == e by {
                            let items = j->Array_0@;
                            if items.len() > 0 {
                                lemma_elements_forward(sig, open + 1, items, e - 1);
                            }
                        }
                        assert forall|items: Seq<Json>, q: int| #[trigger] array_stuck(sig, open as int, items, q)
                            implies false by {
                            if items.len() > 0 {
                                lemma_elements_forward(sig, open + 1, items, q);
                            }
                        }
                    }
                    at = at + 1;
                    break;
                }
                proof {
                    assert forall|j: Json, e: int| #[trigger] value_at(sig, open as int, j, e) implies
                        exists|e1: int| #[trigger] value_at(sig, at as int, j->Array_0@[0], e1)
                            && rest_elements(sig, e1, j->Array_0@.drop_first(), e - 1) by {
                        let items = j->Array_0@;
                        if items.len() == 0 {
                            assert(e - 1 == at);
                        }
                        lemma_elements_forward(sig, open + 1, items, e - 1);
                    }
                    assert forall|items: Seq<Json>, q: int| #[trigger] array_stuck(sig, open as int, items, q) implies
                        items.len() > 0 && exists|e1: int| #[trigger] value_at(sig, at as int, items[0], e1)
                            && rest_elements(sig, e1, items.drop_first(), q) by {
                        lemma_elements_forward(sig, open + 1, items, q);
                    }
                }
            } else {
                if at >= toks.len() {
                    proof {
                        assert forall|j: Json, e: int| #[trigger] value_at(sig, open as int, j, e) implies false by {
                            let items = choose|items: Seq<Json>| #[trigger] rest_elements(sig, at as int, items, e - 1);
                        }
                        assert forall|items: Seq<Json>, q: int| #[trigger] array_stuck(sig, open as int, items, q)
                            implies q >= sig.len() by {
                            let rest = choose|rest: Seq<Json>| #[trigger] rest_elements(sig, at as int, rest, q);
                        }
                    }
                    return Err(ParseError::UnclosedArray(start));
                }
                assert(sig[at as int] == tokens@[toks@[at as int] as int]);
                let tok = &tokens[toks[at]];
                at = at + 1;
                if let Token::ArrayEnd(_) = tok {
                    proof {
                        assert forall|j: Json, e: int| #[trigger] value_at(sig, open as int, j, e) implies at == e by {
                            let items = choose|items: Seq<Json>| #[trigger] rest_elements(sig, last, items, e - 1);
                        }
                        assert forall|items: Seq<Json>, q: int| #[trigger] array_stuck(sig, open as int, items, q)
                            implies false by {
                            let rest = choose|rest: Seq<Json>| #[trigger] rest_elements(sig, last, rest, q);
                        }
                    }
                    break;
                } else if let Token::Comma(_) = tok {
                    proof {
                        assert forall|j: Json, e: int| #[trigger] value_at(sig, open as int, j, e) implies
                            exists|items: Seq<Json>| items.len() > 0 && #[trigger] rest_elements(sig, last, items, e - 1) by {
                            let items = choose|items: Seq<Json>| #[trigger] rest_elements(sig, last, items, e - 1);
                            assert(items.len() > 0 && rest_elements(sig, last, items, e - 1));
                        }
                        assert forall|items: Seq<Json>, q: int| #[trigger] array_stuck(sig, open as int, items, q) implies
                            exists|rest: Seq<Json>| rest.len() > 0 && #[trigger] rest_elements(sig, last, rest, q) by {
                            let rest = choose|rest: Seq<Json>| #[trigger] rest_elements(sig, last, rest, q);
                            assert(rest.len() > 0 && rest_elements(sig, last, rest, q));
                        }
                    }
                } else {
                    proof {
                        assert forall|j: Json, e: int| #[trigger] value_at(sig, open as int, j, e) implies false by {
                            let items = choose|items: Seq<Json>| #[trigger] rest_elements(sig, last, items, e - 1);
                        }
                        assert forall|items: Seq<Json>, q: int| #[trigger] array_stuck(sig, open as int, items, q)
                            implies q == last by {
                            let rest = choose|rest: Seq<Json>| #[trigger] rest_elements(sig, last, rest, q);
                        }
                    }
                    return Err(ParseError::ExtraComma(tok.span()));
                }
            }
            let ghost before = data@;
            let ghost from = at as int;
            let res = Self::parse_first_token(tokens, toks, at);
            let (parsed, next) = match res {
                Ok(v) => v,
                Err(e) => {
                    proof {
                        assert forall|j: Json, e: int| #[trigger] value_at(sig, open as int, j, e) implies false by {
                            if before.len() == 0 {
                                let e1 = choose|e1: int| #[trigger] value_at(sig, from, j->Array_0@[0], e1)
                                    && rest_elements(sig, e1, j->Array_0@.drop_first(), e - 1);
                            } else {
                                let items = choose|items: Seq<Json>| items.len() > 0 && #[trigger] rest_elements(sig, last, items, e - 1);
                                let e1 = choose|e1: int| #[trigger] value_at(sig, last + 1, items[0], e1)
                                    && rest_elements(sig, e1, items.drop_first(), e - 1);
                            }
                        }
                        assert forall|items: Seq<Json>, q: int| #[trigger] array_stuck(sig, open as int, items, q) implies false by {
                            if before.len() == 0 {
                                let e1 = choose|e1: int| #[trigger] value_at(sig, from, items[0], e1)
                                    && rest_elements(sig, e1, items.drop_first(), q);
                            } else {
                                let rest = choose|rest: Seq<Json>| rest.len() > 0 && #[trigger] rest_elements(sig, last, rest, q);
                                let e1 = choose|e1: int| #[trigger] value_at(sig, last + 1, rest[0], e1)
                                    && rest_elements(sig, e1, rest.drop_first(), q);
                            }
                        }
                    }
                    return Err(e);
                },
            };
            at = next;
            match parsed {
                Some(entry) => {
                    data.push(entry);
                    proof {
                        assert(data@.drop_last() =~= before);
                        if before.len() > 0 {
                            assert(from == last + 1);
                            assert(open + 1 <= last < at && elements_upto(sig, open + 1, data@.drop_last(), last)
                                && last < sig.len() && sig[last] is Comma && value_at(sig, last + 1, data@.last(), at as int));
                        } else {
                            assert(data@[0] == entry);
                            assert(from == open + 1);
                        }
                        assert forall|j: Json, e: int| #[trigger] value_at(sig, open as int, j, e) implies
                            exists|items: Seq<Json>| #[trigger] rest_elements(sig, at as int, items, e - 1) by {
                            if before.len() == 0 {
                                let e1 = choose|e1: int| #[trigger] value_at(sig, from, j->Array_0@[0], e1)
                                    && rest_elements(sig, e1, j->Array_0@.drop_first(), e - 1);
                                assert(rest_elements(sig, at as int, j->Array_0@.drop_first(), e - 1));
                            } else {
                                let items = choose|items: Seq<Json>| items.len() > 0 && #[trigger] rest_elements(sig, last, items, e - 1);
                                let e1 = choose|e1: int| #[trigger] value_at(sig, last + 1, items[0], e1)
                                    && rest_elements(sig, e1, items.drop_first(), e - 1);
                                assert(rest_elements(sig, at as int, items.drop_first(), e - 1));
                            }
                        }
                        assert forall|items: Seq<Json>, q: int| #[trigger] array_stuck(sig, open as int, items, q) implies
                            exists|rest: Seq<Json>| #[trigger] rest_elements(sig, at as int, rest, q) by {
                            if before.len() == 0 {
                                let e1 = choose|e1: int| #[trigger] value_at(sig, from, items[0], e1)
                                    && rest_elements(sig, e1, items.drop_first(), q);
                                assert(rest_elements(sig, at as int, items.drop_first(), q));
                            } else {
                                let rest = choose|rest: Seq<Json>| rest.len() > 0 && #[trigger] rest_elements(sig, last, rest, q);
                                let e1 = choose|e1: int| #[trigger] value_at(sig, last + 1, rest[0], e1)
                                    && rest_elements(sig, e1, rest.drop_first(), q);
                                assert(rest_elements(sig, at as int, rest.drop_first(), q));
                            }
                        }
                    }
                },
                None => {
                    proof {
                        assert forall|j: Json, e: int| #[trigger] value_at(sig, open as int, j, e) implies false by {
                            if before.len() == 0 {
                                let e1 = choose|e1: int| #[trigger] value_at(sig, from, j->Array_0@[0], e1)
                                    && rest_elements(sig, e1, j->Array_0@.drop_first(), e - 1);
                            } else {
                                let items = choose|items: Seq<Json>| items.len() > 0 && #[trigger] rest_elements(sig, last, items, e - 1);
                                let e1 = choose|e1: int| #[trigger] value_at(sig, last + 1, items[0], e1)
                                    && rest_elements(sig, e1, items.drop_first(), e - 1);
                            }
                        }
                        assert forall|items: Seq<Json>, q: int| #[trigger] array_stuck(sig, open as int, items, q) implies false by {
                            if before.len() == 0 {
                                let e1 = choose|e1: int| #[trigger] value_at(sig, from, items[0], e1)
                                    && rest_elements(sig, e1, items.drop_first(), q);
                            } else {
                                let rest = choose|rest: Seq<Json>| rest.len() > 0 && #[trigger] rest_elements(sig, last, rest, q);
                                let e1 = choose|e1: int| #[trigger] value_at(sig, last + 1, rest[0], e1)
                                    && rest_elements(sig, e1, rest.drop_first(), q);
                            }
                        }
                    }
                    if at < toks.len() {
                        return Err(ParseError::IllegalArray(tokens[toks[at]].span()));
                    }
                    return Err(ParseError::UnclosedArray(start));
                },
            }
        }
        let r = Json::Array(data);
        Ok((Some(r), at))
    }

    /// Reads an object whose `{` is at `open`. A name given twice keeps the
    /// later value, in the place of the first.
    fn parse_object<'src>(tokens: &[Token<'src>], toks: &Vec<usize>, open: usize) -> (r: Result<(Option<Json>, usize), ParseError<'src>>)
        requires
            indexes_within(toks@, tokens@.len()),
            open < toks@.len(),
            tokens@[toks@[open as int] as int] is ObjectStart,
        ensures
            r is Ok ==> open < r->Ok_0.1 <= toks@.len() && r->Ok_0.0 is Some && r->Ok_0.0->0 is Object
                && wf(r->Ok_0.0->0) && value_at(picked(tokens@, toks@), open as int, r->Ok_0.0->0, r->Ok_0.1 as int),
            forall|j: Json, e: int| #[trigger] value_at(picked(tokens@, toks@), open as int, j, e)
                ==> r is Ok && r->Ok_0.1 == e,
            forall|pairs: Seq<(String, Json)>, q: int| #[trigger] object_stuck(picked(tokens@, toks@), open as int, pairs, q)
                ==> r == Err::<(Option<Json>, usize), ParseError<'src>>(
                    object_error_at(picked(tokens@, toks@), open as int, pairs.len() == 0, q)->0),
        decreases toks@.len() - open, 0nat,
    {
        let start = tokens[toks[open]].span();
        let ghost sig = picked(tokens@, toks@);
        let ghost mut pairs: Seq<(String, Json)> = Seq::empty();
        let mut data: Vec<(String, Json)> = Vec::new();
        let n = toks.len();
        let mut at: usize = open + 1;
        assert(data@ =~= folded(pairs));
        assert(sig[open as int] == tokens@[toks@[open as int] as int]);
        assert forall|j: Json, e: int| #[trigger] value_at(sig, open as int, j, e) implies e <= sig.len()
            && sig[e - 1] is ObjectEnd && exists|all: Seq<(String, Json)>| #[trigger] members_upto(sig, open + 1, all, e - 1) by {
            let all = choose|all: Seq<(String, Json)>| members_upto(sig, open + 1, all, e - 1) && j->Object_0@ == folded(all);
            assert(members_upto(sig, open + 1, all, e - 1));
        }
        loop
            invariant_except_break
                members_upto(sig, open + 1, pairs, at as int),
                forall|j: Json, e: int| #[trigger] value_at(sig, open as int, j, e) ==> e <= sig.len()
                    && sig[e - 1] is ObjectEnd && if pairs.len() == 0 {
                        at == open + 1 && exists|all: Seq<(String, Json)>| #[trigger] members_upto(sig, open + 1, all, e - 1)
                    } else {
                        exists|rest: Seq<(String, Json)>| #[trigger] rest_members(sig, at as int, rest, e - 1)
                    },
                forall|all: Seq<(String, Json)>, q: int| #[trigger] object_stuck(sig, open as int, all, q) ==> if pairs.len() == 0 {
                    at == open + 1
                } else {
                    all.len() > 0 && exists|rest: Seq<(String, Json)>| #[trigger] rest_members(sig, at as int, rest, q)
                },
            invariant
                open < at <= toks@.len(),
                indexes_within(toks@, tokens@.len()),
                sig == picked(tokens@, toks@),
                sig[open as int] is ObjectStart,
                start == sig[open as int].span_spec(),
                data@ == folded(pairs),
                (data@.len() == 0) == (pairs.len() == 0),
                forall|a: int, b: int| #![trigger data@[a], data@[b]] 0 <= a < b < data@.len() ==> data@[a].0@ != data@[b].0@,
                forall|i: int| #![trigger data@[i]] 0 <= i < data@.len() ==> wf(data@[i].1),
            ensures
                open + 1 < at,
                members_upto(sig, open + 1, pairs, at - 1),
                sig[at - 1] is ObjectEnd,
                data@ == folded(pairs),
                forall|a: int, b: int| #![trigger data@[a], data@[b]] 0 <= a < b < data@.len() ==> data@[a].0@ != data@[b].0@,
                forall|i: int| #![trigger data@[i]] 0 <= i < data@.len() ==> wf(data@[i].1),
                forall|j: Json, e: int| #[trigger] value_at(sig, open as int, j, e) ==> at == e,
                forall|all: Seq<(String, Json)>, q: int| #[trigger] object_stuck(sig, open as int, all, q) ==> false,
            decreases toks@.len() - at,
        {
            let ghost last = at as int;
            let ghost first = pairs.len() == 0;
            let ghost name_pos = if first { last } else { last + 1 };
            proof {
                assert forall|all: Seq<(String, Json)>, q: int| #[trigger] object_stuck(sig, open as int, all, q) implies
                    (q == last && (all.len() == 0) == first) || ((first || (last < sig.len() && sig[last] is Comma))
                        && exists|m: (String, Json), e1: int, rest: Seq<(String, Json)>|
                        #[trigger] member_then(sig, name_pos, m, e1, rest, q)) by {
                    if first {
                        if all.len() > 0 {
                            lemma_members_forward(sig, open + 1, all, q);
                            let e1 = choose|e1: int| #[trigger] value_at(sig, open + 1 + 2, all[0].1, e1)
                                && rest_members(sig, e1, all.drop_first(), q);
                            assert(member_then(sig, name_pos, all[0], e1, all.drop_first(), q));
                        }
                    } else {
                        let rest = choose|rest: Seq<(String, Json)>| #[trigger] rest_members(sig, last, rest, q);
                        if rest.len() > 0 {
                            let e1 = choose|e1: int| #[trigger] value_at(sig, last + 3, rest[0].1, e1)
                                && rest_members(sig, e1, rest.drop_first(), q);
                            assert(member_then(sig, name_pos, rest[0], e1, rest.drop_first(), q));
                        }
                    }
                }
            }
            if at >= toks.len() {
                proof {
                    assert forall|j: Json, e: int| #[trigger] value_at(sig, open as int, j, e) implies false by {
                        if !first {
                            let rest = choose|rest: Seq<(String, Json)>| #[trigger] rest_members(sig, at as int, rest, e - 1);
                        }
                    }
                }
                return Err(ParseError::UnclosedObject(start));
            }
            assert(sig[at as int] == tokens@[toks@[at as int] as int]);
            let first_token = &tokens[toks[at]];
            at = at + 1;
            if let Token::ObjectEnd(_) = first_token {
                proof {
                    assert forall|j: Json, e: int| #[trigger] value_at(sig, open as int, j, e) implies at == e by {
                        if first {
                            let all = choose|all: Seq<(String, Json)>| #[trigger] members_upto(sig, open + 1, all, e - 1);
                            if all.len() > 0 {
                                lemma_members_forward(sig, open + 1, all, e - 1);
                            }
                        } else {
                            let rest = choose|rest: Seq<(String, Json)>| #[trigger] rest_members(sig, last, rest, e - 1);
                        }
                    }
                }
                break;
            }
            // Every reading of the whole object continues with a member whose
            // name is at `name_at`.
            let ghost name_at = if first { last } else { last + 1 };
            assert(sig[last] == *first_token);
            assert(!(sig[last] is ObjectEnd));
            proof {
                assert forall|j: Json, e: int| #[trigger] value_at(sig, open as int, j, e) implies
                    (first || sig[last] is Comma) && exists|m: (String, Json), e1: int, rest: Seq<(String, Json)>|
                        #[trigger] member_then(sig, name_at, m, e1, rest, e - 1) by {
                    if first {
                        let all = choose|all: Seq<(String, Json)>| #[trigger] members_upto(sig, open + 1, all, e - 1);
                        if all.len() == 0 {
                            assert(e - 1 == open + 1);
                        }
                        lemma_members_forward(sig, open + 1, all, e - 1);
                        let e1 = choose|e1: int| #[trigger] value_at(sig, open + 1 + 2, all[0].1, e1)
                            && rest_members(sig, e1, all.drop_first(), e - 1);
                        assert(member_then(sig, name_at, all[0], e1, all.drop_first(), e - 1));
                    } else {
                        let rest = choose|rest: Seq<(String, Json)>| #[trigger] rest_members(sig, last, rest, e - 1);
                        if rest.len() == 0 {
                            assert(last == e - 1);
                        }
                        let e1 = choose|e1: int| #[trigger] value_at(sig, last + 3, rest[0].1, e1)
                            && rest_members(sig, e1, rest.drop_first(), e - 1);
                        assert(member_then(sig, name_at, rest[0], e1, rest.drop_first(), e - 1));
                    }
                }
            }
            let possible_name = if data.len() == 0 {
                first_token
            } else if let Token::Comma(_) = first_token {
                if at < toks.len() {
                    assert(sig[at as int] == tokens@[toks@[at as int] as int]);
                    let t = &tokens[toks[at]];
                    at = at + 1;
                    t
                } else {
                    proof {
                        assert forall|j: Json, e: int| #[trigger] value_at(sig, open as int, j, e) implies false by {
                            let (m, e1, rest) = choose|m: (String, Json), e1: int, rest: Seq<(String, Json)>|
                            #[trigger] member_then(sig, name_at, m, e1, rest, e - 1);
                        }
                    }
                    return Err(ParseError::IllegalObject(first_token.span()));
                }
            } else {
                proof {
                    assert forall|j: Json, e: int| #[trigger] value_at(sig, open as int, j, e) implies false by {
                        let (m, e1, rest) = choose|m: (String, Json), e1: int, rest: Seq<(String, Json)>|
                            #[trigger] member_then(sig, name_at, m, e1, rest, e - 1);
                    }
                }
                return Err(ParseError::IllegalObject(first_token.span()));
            };
            assert(name_at == at as int - 1);
            let name = if let Token::Literal(Literal::String(_, name)) = possible_name {
                name
            } else {
                proof {
                    assert forall|j: Json, e: int| #[trigger] value_at(sig, open as int, j, e) implies false by {
                        let (mm, e1, rest) = choose|mm: (String, Json), e1: int, rest: Seq<(String, Json)>|
                            #[trigger] member_then(sig, name_at, mm, e1, rest, e - 1);
                    }
                }
                return Err(ParseError::InvalidKeyType(first_token.span()));
            };
            if at >= toks.len() {
                proof {
                    assert forall|j: Json, e: int| #[trigger] value_at(sig, open as int, j, e) implies false by {
                        let (mm, e1, rest) = choose|mm: (String, Json), e1: int, rest: Seq<(String, Json)>|
                            #[trigger] member_then(sig, name_at, mm, e1, rest, e - 1);
                    }
                }
                return Err(ParseError::UnclosedObject(start));
            }
            assert(sig[at as int] == tokens@[toks@[at as int] as int]);
            let colon = &tokens[toks[at]];
            at = at + 1;
            if let Token::Colon(_) = colon {
            } else {
                proof {
                    assert forall|j: Json, e: int| #[trigger] value_at(sig, open as int, j, e) implies false by {
                        let (mm, e1, rest) = choose|mm: (String, Json), e1: int, rest: Seq<(String, Json)>|
                            #[trigger] member_then(sig, name_at, mm, e1, rest, e - 1);
                    }
                }
                return Err(ParseError::ColonExpected(colon.span()));
            }
            let ghost value_from = at as int;
            assert(value_from == name_at + 2);
            let res = Self::parse_first_token(tokens, toks, at);
            let (parsed, next) = match res {
                Ok(v) => v,
                Err(e) => {
                    proof {
                        assert forall|j: Json, e: int| #[trigger] value_at(sig, open as int, j, e) implies false by {
                            let (mm, e1, rest) = choose|mm: (String, Json), e1: int, rest: Seq<(String, Json)>|
                                #[trigger] member_then(sig, name_at, mm, e1, rest, e - 1);
                        }
                    }
                    return Err(e);
                },
            };
            at = next;
            match parsed {
                Some(value) => {
                    let key = name.clone();
                    let ghost pair = (key, value);
                    let ghost before = pairs;
                    let ghost old_data = data@;
                    proof {
                        assert(key_colon(sig, name_at, key));
                        assert(value_at(sig, value_from, value, at as int));
                        let grown = before.push(pair);
                        assert(grown.drop_last() =~= before);
                        if before.len() == 0 {
                            assert(name_at == open + 1);
                            assert(grown[0] == pair);
                            assert(members_upto(sig, open + 1, grown, at as int));
                        } else {
                            assert(name_at == last + 1);
                            assert(open + 1 <= last < at && members_upto(sig, open + 1, grown.drop_last(), last)
                                && last < sig.len() && sig[last] is Comma && last + 3 < at
                                && key_colon(sig, last + 1, grown.last().0) && value_at(sig, last + 3, grown.last().1, at as int));
                            assert(members_upto(sig, open + 1, grown, at as int));
                        }
                        assert(folded(grown) == insert_member(folded(before), pair));
                        assert forall|j: Json, e: int| #[trigger] value_at(sig, open as int, j, e) implies
                            exists|rest: Seq<(String, Json)>| #[trigger] rest_members(sig, at as int, rest, e - 1) by {
                            let (mm, e1, rest) = choose|mm: (String, Json), e1: int, rest: Seq<(String, Json)>|
                                #[trigger] member_then(sig, name_at, mm, e1, rest, e - 1);
                            assert(rest_members(sig, at as int, rest, e - 1));
                        }
                        pairs = grown;
                    }
                    match find_member(&data, name.as_str()) {
                        Some(j) => {
                            data.set(j, (key, value));
                            proof {
                                assert(first_member(old_data, pair.0@, j as int));
                                let c = choose|i: int| first_member(old_data, pair.0@, i);
                                lemma_first_member_unique(old_data, pair.0@, c, j as int);
                                assert(data@ =~= insert_member(old_data, pair));
                                assert forall|a: int, b: int| #![trigger data@[a], data@[b]] 0 <= a < b < data@.len()
                                    implies data@[a].0@ != data@[b].0@ by {
                                    assert(old_data[a].0@ != old_data[b].0@);
                                }
                            }
                        },
                        None => {
                            data.push((key, value));
                            proof {
                                assert(!exists|i: int| first_member(old_data, pair.0@, i));
                                assert(data@ =~= insert_member(old_data, pair));
                                assert forall|a: int, b: int| #![trigger data@[a], data@[b]] 0 <= a < b < data@.len()
                                    implies data@[a].0@ != data@[b].0@ by {
                                    if b < old_data.len() {
                                        assert(old_data[a].0@ != old_data[b].0@);
                                    } else {
                                        assert(old_data[a].0@ != name@);
                                    }
                                }
                            }
                        },
                    }
                },
                None => {
                    proof {
                        assert forall|j: Json, e: int| #[trigger] value_at(sig, open as int, j, e) implies false by {
                            let (mm, e1, rest) = choose|mm: (String, Json), e1: int, rest: Seq<(String, Json)>|
                                #[trigger] member_then(sig, name_at, mm, e1, rest, e - 1);
                        }
                    }
                    return Err(ParseError::NoMoreTokens);
                },
            }
        }
        proof {
            assert(members_upto(sig, open + 1, pairs, at - 1) && data@ == folded(pairs));
        }
        let r = Json::Object(data);
        Ok((Some(r), at))
    }
}

} // verus!
