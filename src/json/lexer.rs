//! Splitting JSON text into tokens that carry their place in the text.
use std::str::Chars;
use vstd::prelude::*;
use vstd::std_specs::iter::IteratorSpec;
use vstd::string::StrSliceExecFns;

verus! {

broadcast use vstd::string::group_string_axioms;

/// A stretch of the input: where it starts (in characters), its line and
/// column there (both from 0), and how many characters it covers.
#[derive(Clone, Debug, PartialEq)]
pub struct Span<'src> {
    source: Option<&'src str>,
    source_offset: usize,
    line: usize,
    line_offset: usize,
    len: usize,
}

impl<'src> Span<'src> {
    pub closed spec fn start(&self) -> nat {
        self.source_offset as nat
    }

    pub closed spec fn width(&self) -> nat {
        self.len as nat
    }

    pub closed spec fn line_spec(&self) -> nat {
        self.line as nat
    }

    pub closed spec fn column(&self) -> nat {
        self.line_offset as nat
    }

    pub closed spec fn text(&self) -> Option<Seq<char>> {
        match self.source {
            Some(s) => Some(s@),
            None => None,
        }
    }

    pub fn new(source: Option<&'src str>, source_offset: usize, line: usize, line_offset: usize, len: usize) -> (r: Span<'src>)
        ensures
            r.text() == (match source {
                Some(s) => Some(s@),
                None => None::<Seq<char>>,
            }),
            r.start() == source_offset,
            r.line_spec() == line,
            r.column() == line_offset,
            r.width() == len,
    {
        Span { source, source_offset, line, line_offset, len }
    }

    /// The characters of the source that the span covers, cut off at the end
    /// of the source; `None` when the span has no source.
    pub fn lexeme(&self) -> (r: Option<String>)
        ensures
            match self.text() {
                Some(t) => r is Some && r->0@ == lexeme_of(t, self.start(), self.width()),
                None => r is None,
            },
    {
        match self.source {
            Some(val) => {
                let n = val.unicode_len();
                let from = if self.source_offset < n { self.source_offset } else { n };
                let to = if self.len <= n - from { from + self.len } else { n };
                let piece = val.substring_char(from, to);
                Some(String::from_str(piece))
            },
            None => None,
        }
    }

    pub fn line_offset(&self) -> (r: usize)
        ensures
            r == self.column(),
    {
        self.line_offset
    }

    pub fn source(&self) -> (r: Option<&str>)
        ensures
            match r {
                Some(s) => self.text() == Some(s@),
                None => self.text() is None,
            },
    {
        self.source
    }

    pub fn len(&self) -> (r: usize)
        ensures
            r == self.width(),
    {
        self.len
    }

    /// Steps over one character; a newline moves to the start of the next line.
    fn inc_ptr(&mut self, newline: bool)
        requires
            old(self).start() < usize::MAX,
            old(self).line_spec() < usize::MAX,
            old(self).column() < usize::MAX,
        ensures
            final(self).start() == old(self).start() + 1,
            final(self).width() == old(self).width(),
            final(self).text() == old(self).text(),
            newline ==> final(self).line_spec() == old(self).line_spec() + 1 && final(self).column() == 0,
            !newline ==> final(self).line_spec() == old(self).line_spec() && final(self).column() == old(self).column() + 1,
    {
        if !newline {
            self.line_offset = self.line_offset + 1;
        } else {
            self.line_offset = 0;
            self.line = self.line + 1;
        }
        self.source_offset = self.source_offset + 1;
    }
}

/// The characters of `t` from `start`, `width` of them, cut off at the end of `t`.
pub open spec fn lexeme_of(t: Seq<char>, start: nat, width: nat) -> Seq<char> {
    let from = if start < t.len() { start } else { t.len() };
    let to = if width <= t.len() - from { from + width } else { t.len() };
    t.subrange(from as int, to as int)
}

#[derive(Debug, Clone, PartialEq)]
pub enum TokenizeError<'src> {
    EOF(Span<'src>),
    InvalidLiteral(Span<'src>),
    NewlineInString(Span<'src>),
    InvalidEscape(Span<'src>),
    UnterminatedString(Span<'src>),
    IllegalWhitespace(Span<'src>),
}

impl<'src> TokenizeError<'src> {
    pub open spec fn span_spec(&self) -> Span<'src> {
        match self {
            TokenizeError::EOF(s) => *s,
            TokenizeError::InvalidLiteral(s) => *s,
            TokenizeError::NewlineInString(s) => *s,
            TokenizeError::InvalidEscape(s) => *s,
            TokenizeError::UnterminatedString(s) => *s,
            TokenizeError::IllegalWhitespace(s) => *s,
        }
    }

    pub fn span(&self) -> (r: &Span<'src>)
        ensures
            *r == self.span_spec(),
    {
        match self {
            TokenizeError::EOF(span)
            | TokenizeError::InvalidLiteral(span)
            | TokenizeError::NewlineInString(span)
            | TokenizeError::InvalidEscape(span)
            | TokenizeError::UnterminatedString(span)
            | TokenizeError::IllegalWhitespace(span) => span,
        }
    }
}

/// A literal value: numbers keep their text as written, strings the text
/// between the quotes with escapes as written.
#[derive(Debug, Clone, PartialEq)]
pub enum Literal<'src> {
    Number(Span<'src>, String),
    String(Span<'src>, String),
    True(Span<'src>),
    False(Span<'src>),
    Null(Span<'src>),
}

#[derive(Debug, Clone, PartialEq)]
pub enum Token<'src> {
    Whitespace(Span<'src>),
    Literal(Literal<'src>),
    ObjectStart(Span<'src>),
    ObjectEnd(Span<'src>),
    ArrayStart(Span<'src>),
    ArrayEnd(Span<'src>),
    Comma(Span<'src>),
    Colon(Span<'src>),
}

impl<'src> Token<'src> {
    pub open spec fn span_spec(&self) -> Span<'src> {
        match self {
            Token::Whitespace(s) => *s,
            Token::ObjectStart(s) => *s,
            Token::ObjectEnd(s) => *s,
            Token::ArrayStart(s) => *s,
            Token::ArrayEnd(s) => *s,
            Token::Comma(s) => *s,
            Token::Colon(s) => *s,
            Token::Literal(l) => match l {
                Literal::Number(s, _) => *s,
                Literal::String(s, _) => *s,
                Literal::True(s) => *s,
                Literal::False(s) => *s,
                Literal::Null(s) => *s,
            },
        }
    }

    pub fn span(&self) -> (r: Span<'src>)
        ensures
            r == self.span_spec(),
    {
        match self {
            Token::Whitespace(span)
            | Token::ObjectStart(span)
            | Token::ObjectEnd(span)
            | Token::ArrayStart(span)
            | Token::ArrayEnd(span)
            | Token::Comma(span)
            | Token::Colon(span) => span.copy(),
            Token::Literal(id) => match id {
                Literal::String(span, _)
                | Literal::Null(span)
                | Literal::False(span)
                | Literal::True(span)
                | Literal::Number(span, _) => span.copy(),
            },
        }
    }
}

impl<'src> Span<'src> {
    /// A copy of the span.
    pub fn copy(&self) -> (r: Span<'src>)
        ensures
            r == *self,
    {
        Span {
            source: self.source,
            source_offset: self.source_offset,
            line: self.line,
            line_offset: self.line_offset,
            len: self.len,
        }
    }
}

/// Reads every character of `chars`, in order.
pub fn collect_chars(chars: Chars) -> (r: Vec<char>)
    requires
        chars.decrease() is Some,
    ensures
        r@ == chars.remaining(),
{
    let mut it = chars;
    let ghost all = it.remaining();
    let mut out: Vec<char> = Vec::new();
    loop
        invariant
            out@ + it.remaining() == all,
            all == chars.remaining(),
            it.decrease() is Some,
        decreases it.decrease()->0,
    {
        let ghost before = it.remaining();
        match it.next() {
            Some(c) => {
                out.push(c);
                assert(out@ + it.remaining() =~= all);
            },
            None => {
                assert(out@ =~= all);
                return out;
            },
        }
    }
}


/// Relies on `String::push`: appends one character.
#[verifier::external_body]
pub(crate) fn push_char(s: &mut String, c: char)
    ensures
        final(s)@ == old(s)@.push(c),
{
    s.push(c);
}

/// The characters that `char::is_whitespace` accepts: those with the Unicode
/// `White_Space` property.
pub open spec fn unicode_ws(c: char) -> bool {
    let u = c as u32;
    (0x09 <= u <= 0x0D) || u == 0x20 || u == 0x85 || u == 0xA0 || u == 0x1680 || (0x2000 <= u
        <= 0x200A) || u == 0x2028 || u == 0x2029 || u == 0x202F || u == 0x205F || u == 0x3000
}

/// The whitespace that JSON permits between tokens.
pub open spec fn permitted_ws(c: char) -> bool {
    c == ' ' || c == '\t' || c == '\n' || c == '\r'
}

pub open spec fn is_digit(c: char) -> bool {
    '0' <= c <= '9'
}

pub open spec fn is_hex(c: char) -> bool {
    is_digit(c) || ('a' <= c <= 'f') || ('A' <= c <= 'F')
}

/// The characters a number literal is made of.
pub open spec fn number_char(c: char) -> bool {
    is_digit(c) || c == 'e' || c == 'E' || c == '.' || c == '+' || c == '-'
}

/// The characters that may follow a backslash, besides `u`.
pub open spec fn simple_escape(c: char) -> bool {
    c == '\\' || c == '/' || c == 'b' || c == 'f' || c == 'n' || c == 'r' || c == 't' || c == '"'
}

pub open spec fn structural(c: char) -> bool {
    c == '{' || c == '}' || c == ',' || c == '[' || c == ']' || c == ':'
}

/// `w` is written in `src` at `p`.
pub open spec fn word_at(src: Seq<char>, p: int, w: Seq<char>) -> bool {
    0 <= p && p + w.len() <= src.len() && src.subrange(p, p + w.len()) == w
}

/// The token `t` stands for the characters of `src` that its span covers.
pub open spec fn token_fits(src: Seq<char>, t: Token) -> bool {
    let o = t.span_spec().start() as int;
    let l = t.span_spec().width() as int;
    &&& l > 0
    &&& o + l <= src.len()
    &&& (t.span_spec().line_spec(), t.span_spec().column()) == line_col(src, o)
    &&& match t {
        Token::ObjectStart(_) => l == 1 && src[o] == '{',
        Token::ObjectEnd(_) => l == 1 && src[o] == '}',
        Token::ArrayStart(_) => l == 1 && src[o] == '[',
        Token::ArrayEnd(_) => l == 1 && src[o] == ']',
        Token::Comma(_) => l == 1 && src[o] == ',',
        Token::Colon(_) => l == 1 && src[o] == ':',
        Token::Whitespace(_) => forall|k: int| o <= k < o + l ==> permitted_ws(#[trigger] src[k]),
        Token::Literal(Literal::Number(_, text)) => text@ == src.subrange(o, o + l) && (is_digit(src[o])
            || src[o] == '-') && forall|k: int| o <= k < o + l ==> number_char(#[trigger] src[k]),
        Token::Literal(Literal::String(_, text)) => l >= 2 && src[o] == '"' && src[o + l - 1] == '"'
            && text@ == src.subrange(o + 1, o + l - 1),
        Token::Literal(Literal::True(_)) => l == 4 && word_at(src, o, seq!['t', 'r', 'u', 'e']),
        Token::Literal(Literal::False(_)) => l == 5 && word_at(src, o, seq!['f', 'a', 'l', 's', 'e']),
        Token::Literal(Literal::Null(_)) => l == 4 && word_at(src, o, seq!['n', 'u', 'l', 'l']),
    }
}

/// `tokens` cover the characters of `src` from `from` to `to`, each once and in
/// order, and each stands for what it covers; their spans refer to `text`.
pub open spec fn tiles(src: Seq<char>, text: Option<Seq<char>>, tokens: Seq<Token>, from: int, to: int) -> bool {
    &&& forall|k: int| 0 <= k < tokens.len() ==> token_fits(src, #[trigger] tokens[k])
    &&& forall|k: int| 0 <= k < tokens.len() ==> (#[trigger] tokens[k]).span_spec().text() == text
    &&& tokens.len() == 0 ==> from == to
    &&& tokens.len() > 0 ==> tokens[0].span_spec().start() == from
    &&& tokens.len() > 0 ==> tokens.last().span_spec().start() + tokens.last().span_spec().width() == to
    &&& forall|k: int| 0 <= k < tokens.len() - 1 ==> (#[trigger] tokens[k + 1]).span_spec().start()
        == tokens[k].span_spec().start() + tokens[k].span_spec().width()
}

/// A token ends at `end`, where no character could extend it: a run of
/// whitespace is not followed by whitespace, nor a number by a number character.
pub open spec fn ends_maximal(src: Seq<char>, t: Token) -> bool {
    let end = t.span_spec().start() + t.span_spec().width();
    &&& t is Whitespace ==> end == src.len() || !unicode_ws(src[end as int])
    &&& t matches Token::Literal(Literal::Number(..)) ==> end == src.len() || !number_char(src[end as int])
}

/// Every token of `tokens` is as long as it can be.
pub open spec fn maximal(src: Seq<char>, tokens: Seq<Token>) -> bool {
    forall|k: int| 0 <= k < tokens.len() ==> ends_maximal(src, #[trigger] tokens[k])
}

/// Whether `s` is a well-formed string body: characters above U+000A other
/// than quote and backslash, and escapes (a backslash and one of `\\ / b f n r t "`,
/// or `u` and four hexadecimal digits).
pub open spec fn string_body_ok(s: Seq<char>) -> bool
    decreases s.len(),
{
    if s.len() == 0 {
        true
    } else if s[0] == '\\' {
        if s.len() >= 2 && simple_escape(s[1]) {
            string_body_ok(s.subrange(2, s.len() as int))
        } else if s.len() >= 6 && s[1] == 'u' && is_hex(s[2]) && is_hex(s[3]) && is_hex(s[4]) && is_hex(s[5]) {
            string_body_ok(s.subrange(6, s.len() as int))
        } else {
            false
        }
    } else {
        s[0] != '"' && s[0] > '\n' && string_body_ok(s.subrange(1, s.len() as int))
    }
}

/// What a well-formed string body `src[i0..q]` says of its first character.
pub open spec fn body_step(src: Seq<char>, i0: int, q: int) -> bool {
    &&& i0 < q ==> src[i0] != '"'
    &&& i0 < q && src[i0] != '\\' ==> src[i0] > '\n' && string_body_ok(src.subrange(i0 + 1, q))
    &&& i0 < q && src[i0] == '\\' ==> i0 + 1 < q && ((simple_escape(src[i0 + 1]) && string_body_ok(
        src.subrange(i0 + 2, q))) || (!simple_escape(src[i0 + 1]) && src[i0 + 1] == 'u' && i0 + 6 <= q
        && is_hex(src[i0 + 2]) && is_hex(src[i0 + 3]) && is_hex(src[i0 + 4]) && is_hex(src[i0 + 5])
        && string_body_ok(src.subrange(i0 + 6, q))))
}

proof fn lemma_body_step(src: Seq<char>, i0: int, q: int)
    requires
        0 <= i0 <= q <= src.len(),
        string_body_ok(src.subrange(i0, q)),
    ensures
        body_step(src, i0, q),
{
    let b = src.subrange(i0, q);
    if i0 < q {
        assert(b[0] == src[i0]);
        assert(b.subrange(1, b.len() as int) =~= src.subrange(i0 + 1, q));
        if b.len() >= 2 {
            assert(b[1] == src[i0 + 1]);
            assert(b.subrange(2, b.len() as int) =~= src.subrange(i0 + 2, q));
        }
        if b.len() >= 6 {
            assert(b[2] == src[i0 + 2]);
            assert(b[3] == src[i0 + 3]);
            assert(b[4] == src[i0 + 4]);
            assert(b[5] == src[i0 + 5]);
            assert(b.subrange(6, b.len() as int) =~= src.subrange(i0 + 6, q));
        }
    }
}

/// Well-formed string bodies one after the other make a well-formed body.
proof fn lemma_body_concat(a: Seq<char>, b: Seq<char>)
    requires
        string_body_ok(a),
        string_body_ok(b),
    ensures
        string_body_ok(a + b),
    decreases a.len(),
{
    let ab = a + b;
    if a.len() > 0 {
        assert(ab[0] == a[0]);
        if a[0] == '\\' {
            assert(ab[1] == a[1]);
            if a.len() >= 2 && simple_escape(a[1]) {
                lemma_body_concat(a.subrange(2, a.len() as int), b);
                assert(ab.subrange(2, ab.len() as int) =~= a.subrange(2, a.len() as int) + b);
            } else {
                assert(ab[2] == a[2] && ab[3] == a[3] && ab[4] == a[4] && ab[5] == a[5]);
                lemma_body_concat(a.subrange(6, a.len() as int), b);
                assert(ab.subrange(6, ab.len() as int) =~= a.subrange(6, a.len() as int) + b);
            }
        } else {
            lemma_body_concat(a.subrange(1, a.len() as int), b);
            assert(ab.subrange(1, ab.len() as int) =~= a.subrange(1, a.len() as int) + b);
        }
    } else {
        assert(ab =~= b);
    }
}

/// A string literal of `w` characters starts at `i` of `src`, with a
/// well-formed body.
pub open spec fn string_at(src: Seq<char>, i: int, w: int) -> bool {
    &&& 0 <= i && w >= 2 && i + w <= src.len()
    &&& src[i] == '"' && src[i + w - 1] == '"'
    &&& string_body_ok(src.subrange(i + 1, i + w - 1))
}

/// A maximal run of `w` permitted whitespace characters starts at `i`.
pub open spec fn ws_run(src: Seq<char>, i: int, w: int) -> bool {
    &&& 0 <= i && w > 0 && i + w <= src.len()
    &&& forall|k: int| i <= k < i + w ==> permitted_ws(#[trigger] src[k])
    &&& (i + w == src.len() || !unicode_ws(src[i + w]))
}

/// A maximal run of `w` number characters starts at `i`.
pub open spec fn number_run(src: Seq<char>, i: int, w: int) -> bool {
    &&& 0 <= i && w > 0 && i + w <= src.len()
    &&& forall|k: int| i <= k < i + w ==> number_char(#[trigger] src[k])
    &&& (i + w == src.len() || !number_char(src[i + w]))
}

/// `t` is a token that lexing can give: it stands for what it covers, is as
/// long as it can be, and a string's body is well formed.
pub open spec fn token_ok(src: Seq<char>, t: Token) -> bool {
    &&& token_fits(src, t)
    &&& ends_maximal(src, t)
    &&& t matches Token::Literal(Literal::String(sp, _)) ==> string_at(src, sp.start() as int, sp.width() as int)
}

/// The first character of a token tells its kind.
proof fn lemma_token_first_char(src: Seq<char>, t: Token)
    requires
        token_fits(src, t),
    ensures
        ({
            let c = src[t.span_spec().start() as int];
            &&& t is Whitespace ==> permitted_ws(c)
            &&& t matches Token::Literal(Literal::Number(..)) ==> is_digit(c) || c == '-'
            &&& t matches Token::Literal(Literal::String(..)) ==> c == '"'
            &&& t matches Token::Literal(Literal::True(_)) ==> c == 't'
            &&& t matches Token::Literal(Literal::False(_)) ==> c == 'f'
            &&& t matches Token::Literal(Literal::Null(_)) ==> c == 'n'
            &&& t is ObjectStart ==> c == '{'
            &&& t is ObjectEnd ==> c == '}'
            &&& t is ArrayStart ==> c == '['
            &&& t is ArrayEnd ==> c == ']'
            &&& t is Comma ==> c == ','
            &&& t is Colon ==> c == ':'
        }),
{
    let p = t.span_spec().start() as int;
    if p + 4 <= src.len() {
        assert(src.subrange(p, p + 4)[0] == src[p]);
    }
    if p + 5 <= src.len() {
        assert(src.subrange(p, p + 5)[0] == src[p]);
    }
}

/// Every token of `toks` is one that lexing can give.
pub open spec fn all_ok(src: Seq<char>, toks: Seq<Token>) -> bool {
    forall|k: int| 0 <= k < toks.len() ==> token_ok(src, #[trigger] toks[k])
}

/// `src` can be split into tokens that lexing can give.
pub open spec fn lexable(src: Seq<char>) -> bool {
    exists|toks: Seq<Token>, text: Option<Seq<char>>| #[trigger] tiles(src, text, toks, 0, src.len() as int)
        && all_ok(src, toks)
}

/// Two tokens of the same kind with the same text.
pub open spec fn tok_equiv(a: Token, b: Token) -> bool {
    match a {
        Token::Literal(Literal::Number(_, x)) => b matches Token::Literal(Literal::Number(_, y)) && x@ == y@,
        Token::Literal(Literal::String(_, x)) => b matches Token::Literal(Literal::String(_, y)) && x@ == y@,
        Token::Literal(Literal::True(_)) => b matches Token::Literal(Literal::True(_)),
        Token::Literal(Literal::False(_)) => b matches Token::Literal(Literal::False(_)),
        Token::Literal(Literal::Null(_)) => b matches Token::Literal(Literal::Null(_)),
        Token::Whitespace(_) => b is Whitespace,
        Token::ObjectStart(_) => b is ObjectStart,
        Token::ObjectEnd(_) => b is ObjectEnd,
        Token::ArrayStart(_) => b is ArrayStart,
        Token::ArrayEnd(_) => b is ArrayEnd,
        Token::Comma(_) => b is Comma,
        Token::Colon(_) => b is Colon,
    }
}

/// Two token sequences that agree token by token.
pub open spec fn seq_equiv(a: Seq<Token>, b: Seq<Token>) -> bool {
    a.len() == b.len() && forall|k: int| 0 <= k < a.len() ==> tok_equiv(#[trigger] a[k], b[k])
}

/// A quote that a well-formed body reaches at an atom boundary cannot stand
/// inside a longer well-formed body.
proof fn lemma_quote_ends_body(a: Seq<char>, b: Seq<char>)
    requires
        string_body_ok(a),
    ensures
        !string_body_ok(a + seq!['"'] + b),
    decreases a.len(),
{
    let ab = a + seq!['"'] + b;
    if a.len() == 0 {
        assert(ab[0] == '"');
    } else {
        assert(ab[0] == a[0]);
        if a[0] == '\\' {
            assert(ab[1] == a[1]);
            if a.len() >= 2 && simple_escape(a[1]) {
                lemma_quote_ends_body(a.subrange(2, a.len() as int), b);
                assert(ab.subrange(2, ab.len() as int) =~= a.subrange(2, a.len() as int) + seq!['"'] + b);
            } else {
                assert(ab[2] == a[2] && ab[3] == a[3] && ab[4] == a[4] && ab[5] == a[5]);
                lemma_quote_ends_body(a.subrange(6, a.len() as int), b);
                assert(ab.subrange(6, ab.len() as int) =~= a.subrange(6, a.len() as int) + seq!['"'] + b);
            }
        } else {
            lemma_quote_ends_body(a.subrange(1, a.len() as int), b);
            assert(ab.subrange(1, ab.len() as int) =~= a.subrange(1, a.len() as int) + seq!['"'] + b);
        }
    }
}

/// Two tokens that lexing can give at the same place are the same token.
proof fn lemma_one_token(src: Seq<char>, a: Token, b: Token)
    requires
        token_ok(src, a),
        token_ok(src, b),
        a.span_spec().start() == b.span_spec().start(),
    ensures
        tok_equiv(a, b),
        a.span_spec().width() == b.span_spec().width(),
{
    lemma_token_first_char(src, a);
    lemma_token_first_char(src, b);
    let p = a.span_spec().start() as int;
    let wa = a.span_spec().width() as int;
    let wb = b.span_spec().width() as int;
    if a is Whitespace {
        if wa < wb {
            assert(permitted_ws(src[p + wa]));
        } else if wb < wa {
            assert(permitted_ws(src[p + wb]));
        }
    }
    if a matches Token::Literal(Literal::Number(..)) {
        if wa < wb {
            assert(number_char(src[p + wa]));
        } else if wb < wa {
            assert(number_char(src[p + wb]));
        }
    }
    if a matches Token::Literal(Literal::String(..)) {
        if wa < wb {
            let body = src.subrange(p + 1, p + wb - 1);
            assert(body =~= src.subrange(p + 1, p + wa - 1) + seq!['"'] + src.subrange(p + wa, p + wb - 1));
            lemma_quote_ends_body(src.subrange(p + 1, p + wa - 1), src.subrange(p + wa, p + wb - 1));
        } else if wb < wa {
            let body = src.subrange(p + 1, p + wa - 1);
            assert(body =~= src.subrange(p + 1, p + wb - 1) + seq!['"'] + src.subrange(p + wb, p + wa - 1));
            lemma_quote_ends_body(src.subrange(p + 1, p + wb - 1), src.subrange(p + wb, p + wa - 1));
        }
    }
}

/// Where the `k`th token of a tiling of `src` starts (the end, past the last).
pub open spec fn start_of(src: Seq<char>, t: Seq<Token>, k: int) -> int {
    if k < t.len() { t[k].span_spec().start() as int } else { src.len() as int }
}

proof fn lemma_unique_from(src: Seq<char>, a: Seq<Token>, ta: Option<Seq<char>>, b: Seq<Token>, tb: Option<Seq<char>>, k: int)
    requires
        tiles(src, ta, a, 0, src.len() as int),
        tiles(src, tb, b, 0, src.len() as int),
        all_ok(src, a),
        all_ok(src, b),
        0 <= k <= a.len(),
        0 <= k <= b.len(),
        start_of(src, a, k) == start_of(src, b, k),
    ensures
        a.len() == b.len(),
        forall|j: int| k <= j < a.len() ==> tok_equiv(#[trigger] a[j], b[j]),
    decreases a.len() - k,
{
    if k == a.len() {
        if k < b.len() {
            assert(token_fits(src, b[k]));
        }
    } else if k == b.len() {
        assert(token_fits(src, a[k]));
    } else {
        assert(token_ok(src, a[k]));
        assert(token_ok(src, b[k]));
        lemma_one_token(src, a[k], b[k]);
        if k + 1 < a.len() {
            assert(a[k + 1].span_spec().start() == a[k].span_spec().start() + a[k].span_spec().width());
        }
        if k + 1 < b.len() {
            assert(b[k + 1].span_spec().start() == b[k].span_spec().start() + b[k].span_spec().width());
        }
        lemma_unique_from(src, a, ta, b, tb, k + 1);
    }
}

/// Any two ways of splitting `src` into tokens that lexing can give agree.
pub proof fn lemma_tokens_unique(src: Seq<char>, a: Seq<Token>, ta: Option<Seq<char>>, b: Seq<Token>, tb: Option<Seq<char>>)
    requires
        tiles(src, ta, a, 0, src.len() as int),
        tiles(src, tb, b, 0, src.len() as int),
        all_ok(src, a),
        all_ok(src, b),
    ensures
        seq_equiv(a, b),
{
    lemma_unique_from(src, a, ta, b, tb, 0);
}

/// The kinds of lexing errors.
pub enum LexFault {
    IllegalWhitespace,
    NewlineInString,
    InvalidEscape,
    UnterminatedString,
    InvalidLiteral,
}

/// The kind of a lexing error.
pub open spec fn fault_of(e: TokenizeError) -> Option<LexFault> {
    match e {
        TokenizeError::IllegalWhitespace(_) => Some(LexFault::IllegalWhitespace),
        TokenizeError::NewlineInString(_) => Some(LexFault::NewlineInString),
        TokenizeError::InvalidEscape(_) => Some(LexFault::InvalidEscape),
        TokenizeError::UnterminatedString(_) => Some(LexFault::UnterminatedString),
        TokenizeError::InvalidLiteral(_) => Some(LexFault::InvalidLiteral),
        TokenizeError::EOF(_) => None,
    }
}

/// Scanning a run of whitespace from `k`: the first whitespace character
/// that JSON does not permit, if the run holds one.
pub open spec fn ws_fault(src: Seq<char>, k: int) -> Option<(LexFault, int)>
    decreases src.len() - k,
{
    if 0 <= k < src.len() && unicode_ws(src[k]) {
        if permitted_ws(src[k]) {
            ws_fault(src, k + 1)
        } else {
            Some((LexFault::IllegalWhitespace, k))
        }
    } else {
        None
    }
}

/// Scanning the inside of a string from `k`: where and why it is malformed,
/// or `None` when it closes.
pub open spec fn string_fault(src: Seq<char>, k: int) -> Option<(LexFault, int)>
    decreases src.len() - k,
{
    if k < 0 {
        None
    } else if k >= src.len() {
        Some((LexFault::UnterminatedString, src.len() as int))
    } else if src[k] == '\\' {
        if k + 1 >= src.len() {
            Some((LexFault::InvalidEscape, k + 1))
        } else if simple_escape(src[k + 1]) {
            string_fault(src, k + 2)
        } else if src[k + 1] == 'u' {
            if k + 6 <= src.len() && is_hex(src[k + 2]) && is_hex(src[k + 3]) && is_hex(src[k + 4]) && is_hex(src[k + 5]) {
                string_fault(src, k + 6)
            } else {
                Some((LexFault::InvalidEscape, k + 2))
            }
        } else {
            Some((LexFault::InvalidEscape, k + 1))
        }
    } else if src[k] == '"' {
        None
    } else if src[k] <= '\n' {
        Some((LexFault::NewlineInString, k))
    } else {
        string_fault(src, k + 1)
    }
}

/// Why no token can be read at `p`, and where that shows.
pub open spec fn token_fault(src: Seq<char>, p: int) -> Option<(LexFault, int)> {
    let c = src[p];
    if structural(c) || is_digit(c) || c == '-' {
        None
    } else if unicode_ws(c) {
        ws_fault(src, p)
    } else if c == '"' {
        string_fault(src, p + 1)
    } else if (c == 'n' && word_at(src, p, seq!['n', 'u', 'l', 'l'])) || (c == 't' && word_at(src, p, seq!['t', 'r', 'u', 'e']))
        || (c == 'f' && word_at(src, p, seq!['f', 'a', 'l', 's', 'e'])) {
        None
    } else {
        Some((LexFault::InvalidLiteral, p))
    }
}

/// `e` is the error that lexing reports for `src`: the tokens before `p`
/// are read, the one at `p` cannot be, and `e` says why and where.
pub open spec fn first_fault(src: Seq<char>, text: Option<Seq<char>>, e: TokenizeError) -> bool {
    exists|toks: Seq<Token>, p: int| #[trigger] tiles(src, text, toks, 0, p) && all_ok(src, toks) && 0 <= p < src.len()
        && token_fault(src, p) == Some((fault_of(e)->0, e.span_spec().start() as int))
        && (e.span_spec().line_spec(), e.span_spec().column()) == line_col(src, e.span_spec().start() as int)
        && e.span_spec().text() == text
}

/// `e` is an error that the character at its position in `src` justifies.
pub open spec fn error_fits(src: Seq<char>, e: TokenizeError) -> bool {
    let p = e.span_spec().start() as int;
    &&& (e is InvalidLiteral) == (e.span_spec().width() == 0)
    &&& !(e is InvalidLiteral) ==> e.span_spec().width() == 1
    &&& match e {
        TokenizeError::IllegalWhitespace(_) => p < src.len() && unicode_ws(src[p]) && !permitted_ws(src[p]),
        TokenizeError::NewlineInString(_) => p < src.len() && src[p] <= '\n',
        TokenizeError::UnterminatedString(_) => p == src.len(),
        TokenizeError::InvalidEscape(_) => (1 <= p <= src.len() && src[p - 1] == '\\' && (p == src.len()
            || !(simple_escape(src[p]) || src[p] == 'u'))) || (2 <= p && p <= src.len() && src[p - 2] == '\\'
            && src[p - 1] == 'u' && !(p + 4 <= src.len() && forall|k: int| p <= k < p + 4 ==> is_hex(#[trigger] src[k]))),
        TokenizeError::InvalidLiteral(_) => p < src.len() && !structural(src[p]) && !unicode_ws(src[p]) && !is_digit(src[p])
            && src[p] != '-' && src[p] != '"' && (src[p] == 'n' ==> !word_at(src, p, seq!['n', 'u', 'l', 'l']))
            && (src[p] == 't' ==> !word_at(src, p, seq!['t', 'r', 'u', 'e']))
            && (src[p] == 'f' ==> !word_at(src, p, seq!['f', 'a', 'l', 's', 'e'])),
        TokenizeError::EOF(_) => false,
    }
}


/// Adding a token that starts where the others end keeps the tiling.
proof fn lemma_tiles_push(src: Seq<char>, text: Option<Seq<char>>, toks: Seq<Token>, t: Token, from: int, to: int)
    requires
        tiles(src, text, toks, from, to),
        t.span_spec().start() == to,
        token_fits(src, t),
        t.span_spec().text() == text,
    ensures
        tiles(src, text, toks.push(t), from, to + t.span_spec().width()),
{
    let r = toks.push(t);
    assert forall|k: int| 0 <= k < r.len() - 1 implies (#[trigger] r[k + 1]).span_spec().start()
        == r[k].span_spec().start() + r[k].span_spec().width() by {
        if k < toks.len() - 1 {
            assert(r[k + 1] == toks[k + 1]);
        }
    }
    assert forall|k: int| 0 <= k < r.len() implies token_fits(src, #[trigger] r[k]) by {
        if k < toks.len() {
            assert(r[k] == toks[k]);
        }
    }
    assert forall|k: int| 0 <= k < r.len() implies (#[trigger] r[k]).span_spec().text() == text by {
        if k < toks.len() {
            assert(r[k] == toks[k]);
        }
    }
}

/// The lexemes of `tokens` over `src`, one after the other.
pub open spec fn joined(src: Seq<char>, tokens: Seq<Token>) -> Seq<char>
    decreases tokens.len(),
{
    if tokens.len() == 0 {
        Seq::empty()
    } else {
        let last = tokens.last().span_spec();
        joined(src, tokens.drop_last()) + lexeme_of(src, last.start(), last.width())
    }
}

/// Tokens that tile `src` from the start up to `to` spell out that part of it.
proof fn lemma_joined_prefix(src: Seq<char>, text: Option<Seq<char>>, tokens: Seq<Token>, to: int)
    requires
        tiles(src, text, tokens, 0, to),
    ensures
        0 <= to <= src.len(),
        joined(src, tokens) == src.subrange(0, to),
    decreases tokens.len(),
{
    if tokens.len() == 0 {
        assert(src.subrange(0, 0) =~= Seq::<char>::empty());
    } else {
        let init = tokens.drop_last();
        let last = tokens.last().span_spec();
        assert(token_fits(src, tokens[tokens.len() - 1]));
        let mid = last.start() as int;
        assert forall|k: int| 0 <= k < init.len() - 1 implies (#[trigger] init[k + 1]).span_spec().start()
            == init[k].span_spec().start() + init[k].span_spec().width() by {
            assert(init[k + 1] == tokens[k + 1]);
            assert(init[k] == tokens[k]);
        }
        assert forall|k: int| 0 <= k < init.len() implies token_fits(src, #[trigger] init[k]) by {
            assert(init[k] == tokens[k]);
        }
        assert forall|k: int| 0 <= k < init.len() implies (#[trigger] init[k]).span_spec().text() == text by {
            assert(init[k] == tokens[k]);
        }
        if init.len() > 0 {
            let k = init.len() - 1;
            assert(tokens[k + 1].span_spec().start() == tokens[k].span_spec().start()
                + tokens[k].span_spec().width());
            assert(init.last() == tokens[k]);
            assert(init[0] == tokens[0]);
        }
        assert(tiles(src, text, init, 0, mid));
        lemma_joined_prefix(src, text, init, mid);
        assert(lexeme_of(src, last.start(), last.width()) =~= src.subrange(mid, to));
        assert(src.subrange(0, mid) + src.subrange(mid, to) =~= src.subrange(0, to));
    }
}

/// Concatenating, in order, the lexemes of the tokens that lexing accepted
/// gives back the source exactly.
pub proof fn lemma_lexemes_rebuild_source(src: Seq<char>, tokens: Seq<Token>)
    requires
        tiles(src, Some(src), tokens, 0, src.len() as int),
    ensures
        joined(src, tokens) == src,
{
    lemma_joined_prefix(src, Some(src), tokens, src.len() as int);
    assert(src.subrange(0, src.len() as int) =~= src);
}

/// The line and the column, both from 0, of position `i` of `src`: each
/// newline starts a new line at column 0.
pub open spec fn line_col(src: Seq<char>, i: int) -> (nat, nat)
    decreases i,
{
    if i <= 0 {
        (0, 0)
    } else {
        let (l, c) = line_col(src, i - 1);
        if i - 1 < src.len() && src[i - 1] == '\n' {
            (l + 1, 0)
        } else {
            (l, c + 1)
        }
    }
}

/// Neither the line nor the column of a position exceeds the position.
proof fn lemma_line_col_bound(src: Seq<char>, i: int)
    requires
        0 <= i,
    ensures
        line_col(src, i).0 <= i,
        line_col(src, i).1 <= i,
    decreases i,
{
    if i > 0 {
        lemma_line_col_bound(src, i - 1);
    }
}

/// The cursor `loc` stands at position `i` of `src`, whose text is `text`.
pub open spec fn cursor_at(src: Seq<char>, loc: Span, i: int, text: Option<Seq<char>>) -> bool {
    &&& loc.start() == i
    &&& loc.width() == 0
    &&& loc.text() == text
    &&& (loc.line_spec(), loc.column()) == line_col(src, i)
    &&& loc.line_spec() <= i
    &&& loc.column() <= i
}

/// Splits text into tokens.
pub struct Lexer<'src> {
    current_loc: Span<'src>,
}

/// A one-character span at the position of `span`.
fn into_err_span<'src>(span: &Span<'src>) -> (r: Span<'src>)
    requires
        span.width() < usize::MAX,
    ensures
        r.start() == span.start(),
        r.width() == span.width() + 1,
        r.text() == span.text(),
        r.line_spec() == span.line_spec(),
        r.column() == span.column(),
{
    let mut clone = span.copy();
    clone.len = clone.len + 1;
    clone
}

/// Whether `c` is whitespace in Unicode's sense.
fn is_whitespace(c: char) -> (r: bool)
    ensures
        r == unicode_ws(c),
{
    let u = c as u32;
    (0x09 <= u && u <= 0x0D) || u == 0x20 || u == 0x85 || u == 0xA0 || u == 0x1680 || (0x2000 <= u
        && u <= 0x200A) || u == 0x2028 || u == 0x2029 || u == 0x202F || u == 0x205F || u == 0x3000
}

/// Whether four hexadecimal digits are written in `cs` at `p`.
fn hex4(cs: &Vec<char>, p: usize) -> (r: bool)
    ensures
        r == (p + 4 <= cs@.len() && forall|k: int| p <= k < p + 4 ==> is_hex(#[trigger] cs@[k])),
{
    let n = cs.len();
    if p > n || n - p < 4 {
        return false;
    }
    let mut k: usize = p;
    while k < p + 4
        invariant
            p <= k <= p + 4,
            n == cs@.len(),
            p + 4 <= cs@.len(),
            forall|j: int| p <= j < k ==> is_hex(#[trigger] cs@[j]),
        decreases p + 4 - k,
    {
        let c = cs[k];
        if !(('0' <= c && c <= '9') || ('a' <= c && c <= 'f') || ('A' <= c && c <= 'F')) {
            return false;
        }
        k = k + 1;
    }
    true
}

/// Whether `w` is written in `cs` at `p`.
fn word_matches(cs: &Vec<char>, p: usize, w: &[char]) -> (r: bool)
    ensures
        r == word_at(cs@, p as int, w@),
{
    let n = cs.len();
    if w.len() > n || p > n - w.len() {
        return false;
    }
    let mut k: usize = 0;
    while k < w.len()
        invariant
            p + w@.len() <= cs@.len(),
            n == cs@.len(),
            k <= w@.len(),
            forall|j: int| 0 <= j < k ==> cs@[p + j] == w@[j],
        decreases w@.len() - k,
    {
        if cs[p + k] != w[k] {
            assert(cs@.subrange(p as int, p + w@.len())[k as int] != w@[k as int]);
            return false;
        }
        k = k + 1;
    }
    assert(cs@.subrange(p as int, p + w@.len()) =~= w@);
    true
}

impl<'src> Lexer<'src> {
    /// The lexer stands at the start of its source.
    pub closed spec fn fresh(&self) -> bool {
        &&& self.current_loc.start() == 0
        &&& self.current_loc.width() == 0
        &&& self.current_loc.line_spec() == 0
        &&& self.current_loc.column() == 0
    }

    /// The text of the source, when the lexer was given one.
    pub closed spec fn source_text(&self) -> Option<Seq<char>> {
        self.current_loc.text()
    }

    pub fn new(source: Option<&'src str>) -> (r: Lexer<'src>)
        ensures
            r.fresh(),
            r.source_text() == (match source {
                Some(s) => Some(s@),
                None => None::<Seq<char>>,
            }),
    {
        Lexer { current_loc: Span::new(source, 0, 0, 0, 0) }
    }

    /// Tokens of the whole of `input`. It succeeds exactly when `input` can
    /// be split into tokens, see [`lexable`].
    pub fn lex_str(input: &'src str) -> (r: Result<Vec<Token<'src>>, TokenizeError<'src>>)
        ensures
            match r {
                Ok(tokens) => tiles(input@, Some(input@), tokens@, 0, input@.len() as int) && maximal(input@, tokens@)
                    && all_ok(input@, tokens@),
                Err(e) => error_fits(input@, e) && first_fault(input@, Some(input@), e),
            },
            r is Ok <==> lexable(input@),
    {
        let me = Lexer::new(Some(input));
        let mut tokens: Vec<Token<'src>> = Vec::new();
        match me.lex_into(input.chars(), &mut tokens) {
            Ok(()) => {
                assert(tokens@.subrange(0, tokens@.len() as int) =~= tokens@);
                Ok(tokens)
            },
            Err(e) => Err(e),
        }
    }

    /// Tokens of the characters of `chars`; their spans have no source text.
    pub fn lex_chars(chars: Chars<'src>) -> (r: Result<Vec<Token<'src>>, TokenizeError<'src>>)
        requires
            chars.decrease() is Some,
        ensures
            match r {
                Ok(tokens) => tiles(chars.remaining(), None, tokens@, 0, chars.remaining().len() as int)
                    && maximal(chars.remaining(), tokens@) && all_ok(chars.remaining(), tokens@),
                Err(e) => error_fits(chars.remaining(), e) && first_fault(chars.remaining(), None, e),
            },
            r is Ok <==> lexable(chars.remaining()),
    {
        let me = Lexer::new(None);
        let mut tokens: Vec<Token<'src>> = Vec::new();
        match me.lex_into(chars, &mut tokens) {
            Ok(()) => {
                assert(tokens@.subrange(0, tokens@.len() as int) =~= tokens@);
                Ok(tokens)
            },
            Err(e) => Err(e),
        }
    }

    /// Appends the tokens of the characters of `chars` to `tokens`.
    pub fn lex_into(self, chars: Chars<'src>, tokens: &mut Vec<Token<'src>>) -> (r: Result<(), TokenizeError<'src>>)
        requires
            self.fresh(),
            chars.decrease() is Some,
        ensures
            final(tokens)@.len() >= old(tokens)@.len(),
            final(tokens)@.take(old(tokens)@.len() as int) == old(tokens)@,
            match r {
                Ok(()) => tiles(chars.remaining(), self.source_text(),
                    final(tokens)@.subrange(old(tokens)@.len() as int, final(tokens)@.len() as int),
                    0, chars.remaining().len() as int) && maximal(chars.remaining(),
                    final(tokens)@.subrange(old(tokens)@.len() as int, final(tokens)@.len() as int))
                    && all_ok(chars.remaining(), final(tokens)@.subrange(old(tokens)@.len() as int, final(tokens)@.len() as int)),
                Err(e) => error_fits(chars.remaining(), e),
            },
            r is Ok <==> lexable(chars.remaining()),
            r matches Err(e) ==> first_fault(chars.remaining(), self.source_text(), e),
    {
        let ghost src = chars.remaining();
        let ghost text = self.current_loc.text();
        let ghost mut kk: int = 0;
        let ghost k0 = tokens@.len() as int;
        let ghost orig = tokens@;
        let cs = collect_chars(chars);
        let ghost (wt, wtx) = choose|toks: Seq<Token>, text: Option<Seq<char>>| #[trigger] tiles(cs@, text, toks, 0, cs@.len() as int)
            && all_ok(cs@, toks);
        let mut current_loc = self.current_loc;
        let mut i: usize = 0;
        assert(tokens@.subrange(k0, tokens@.len() as int) =~= Seq::<Token>::empty());
        assert(tokens@.take(k0) =~= old(tokens)@);
        while i < cs.len()
            invariant
                cs@ == src,
                i <= cs@.len(),
                cursor_at(cs@, current_loc, i as int, text),
                orig == old(tokens)@,
                src == chars.remaining(),
                text == self.source_text(),
                k0 == orig.len(),
                tokens@.len() >= k0,
                tokens@.take(k0) == orig,
                tiles(src, text, tokens@.subrange(k0, tokens@.len() as int), 0, i as int),
                maximal(src, tokens@.subrange(k0, tokens@.len() as int)),
                all_ok(src, tokens@.subrange(k0, tokens@.len() as int)),
                lexable(cs@) ==> tiles(cs@, wtx, wt, 0, cs@.len() as int) && all_ok(cs@, wt)
                    && 0 <= kk <= wt.len() && (kk < wt.len() ==> wt[kk].span_spec().start() == i)
                    && (kk == wt.len() ==> i == cs@.len()),
            decreases cs@.len() - i,
        {
            let ghost before = tokens@;
            let ghost i0 = i as int;
            proof {
                if lexable(cs@) {
                    let t = wt[kk];
                    assert(token_ok(cs@, t));
                    lemma_token_first_char(cs@, t);
                    if t is Whitespace {
                        assert(ws_run(cs@, i0, t.span_spec().width() as int));
                    }
                }
            }
            let next_char = cs[i];
            let res: Result<Token<'src>, TokenizeError<'src>> = if next_char == '{' || next_char == '}' || next_char == ','
                || next_char == '[' || next_char == ']' || next_char == ':' {
                let mut start_loc = current_loc.copy();
                start_loc.len = 1;
                current_loc.inc_ptr(false);
                i = i + 1;
                if next_char == '{' {
                    Ok(Token::ObjectStart(start_loc))
                } else if next_char == '}' {
                    Ok(Token::ObjectEnd(start_loc))
                } else if next_char == ',' {
                    Ok(Token::Comma(start_loc))
                } else if next_char == '[' {
                    Ok(Token::ArrayStart(start_loc))
                } else if next_char == ']' {
                    Ok(Token::ArrayEnd(start_loc))
                } else {
                    Ok(Token::Colon(start_loc))
                }
            } else if is_whitespace(next_char) {
                match Self::lex_whitespace(&cs, &mut i, &mut current_loc) {
                    Ok(span) => Ok(Token::Whitespace(span)),
                    Err(e) => Err(e),
                }
            } else {
                match Self::lex_literal(&cs, &mut i, &mut current_loc) {
                    Ok(lit) => Ok(Token::Literal(lit)),
                    Err(e) => Err(e),
                }
            };
            let token = match res {
                Ok(token) => token,
                Err(e) => {
                    assert(tokens@ == before);
                    proof {
                        let done = before.subrange(k0, before.len() as int);
                        assert(tiles(cs@, text, done, 0, i0) && all_ok(cs@, done) && 0 <= i0 < cs@.len()
                            && token_fault(cs@, i0) == Some((fault_of(e)->0, e.span_spec().start() as int)));
                    }
                    return Err(e);
                },
            };
            proof {
                lemma_tiles_push(src, text, before.subrange(k0, before.len() as int), token,
                    0, token.span_spec().start() as int);
                if lexable(cs@) {
                    let t = wt[kk];
                    assert(i == i0 + t.span_spec().width());
                    if kk + 1 < wt.len() {
                        assert(wt[kk + 1].span_spec().start() == wt[kk].span_spec().start() + wt[kk].span_spec().width());
                    }
                    kk = kk + 1;
                }
            }
            tokens.push(token);
            proof {
                assert(tokens@.subrange(k0, tokens@.len() as int)
                    =~= before.subrange(k0, before.len() as int).push(token));
                let now = tokens@.subrange(k0, tokens@.len() as int);
                let was = before.subrange(k0, before.len() as int);
                assert forall|k: int| 0 <= k < now.len() implies ends_maximal(src, #[trigger] now[k]) by {
                    if k < was.len() {
                        assert(now[k] == was[k]);
                    }
                }
                assert forall|k: int| 0 <= k < now.len() implies token_ok(src, #[trigger] now[k]) by {
                    if k < was.len() {
                        assert(now[k] == was[k]);
                    }
                }
                assert(tokens@.take(k0) =~= before.take(k0));
            }
        }
        proof {
            let done = tokens@.subrange(k0, tokens@.len() as int);
            assert(tiles(src, text, done, 0, src.len() as int) && all_ok(src, done));
        }
        Ok(())
    }

    /// A run of whitespace starting at `i`.
    fn lex_whitespace(cs: &Vec<char>, i: &mut usize, current_loc: &mut Span<'src>) -> (r: Result<Span<'src>, TokenizeError<'src>>)
        requires
            *old(i) < cs@.len(),
            unicode_ws(cs@[*old(i) as int]),
            cursor_at(cs@, *old(current_loc), *old(i) as int, old(current_loc).text()),
        ensures
            match r {
                Ok(span) => span.start() == *old(i) && *final(i) == *old(i) + span.width()
                    && *final(i) <= cs@.len()
                    && cursor_at(cs@, *final(current_loc), *final(i) as int, old(current_loc).text())
                    && token_fits(cs@, Token::Whitespace(span)) && span.text() == old(current_loc).text()
                    && token_ok(cs@, Token::Whitespace(span)),
                Err(e) => error_fits(cs@, e),
            },
            forall|w: int| #[trigger] ws_run(cs@, *old(i) as int, w) ==> r is Ok && *final(i) == *old(i) + w,
            r matches Err(e) ==> ws_fault(cs@, *old(i) as int) == Some((fault_of(e)->0, e.span_spec().start() as int))
                && (e.span_spec().line_spec(), e.span_spec().column()) == line_col(cs@, e.span_spec().start() as int)
                && e.span_spec().text() == old(current_loc).text(),
    {
        let n = cs.len();
        let ghost text = current_loc.text();
        let mut my_loc = current_loc.copy();
        let ghost s0 = *i as int;
        while *i < cs.len() && is_whitespace(cs[*i])
            invariant
                s0 <= *i <= cs@.len(),
                my_loc.start() == s0,
                my_loc.width() == *i - s0,
                my_loc.text() == text,
                (my_loc.line_spec(), my_loc.column()) == line_col(cs@, s0),
                cursor_at(cs@, *current_loc, *i as int, text),
                forall|k: int| s0 <= k < *i ==> permitted_ws(#[trigger] cs@[k]),
                s0 == *old(i),
                forall|w: int| #[trigger] ws_run(cs@, s0, w) ==> *i <= s0 + w,
                ws_fault(cs@, s0) == ws_fault(cs@, *i as int),
                text == old(current_loc).text(),
            decreases cs@.len() - *i,
        {
            let c = cs[*i];
            if !(c == ' ' || c == '\t' || c == '\n' || c == '\r') {
                assert(cs@[*i as int] == c && unicode_ws(c));
                assert(ws_fault(cs@, *i as int) == Some((LexFault::IllegalWhitespace, *i as int)));
                return Err(TokenizeError::IllegalWhitespace(into_err_span(current_loc)));
            }
            assert(cs@[*i as int] == c && unicode_ws(c) && permitted_ws(c));
            assert(ws_fault(cs@, *i as int) == ws_fault(cs@, *i + 1));
            my_loc.len = my_loc.len + 1;
            current_loc.inc_ptr(c == '\n');
            *i = *i + 1;
        }
        Ok(my_loc)
    }

    /// A literal starting at `i`, which holds no structural character and no
    /// whitespace.
    fn lex_literal(cs: &Vec<char>, i: &mut usize, current_loc: &mut Span<'src>) -> (r: Result<Literal<'src>, TokenizeError<'src>>)
        requires
            *old(i) < cs@.len(),
            !unicode_ws(cs@[*old(i) as int]),
            !structural(cs@[*old(i) as int]),
            cursor_at(cs@, *old(current_loc), *old(i) as int, old(current_loc).text()),
        ensures
            match r {
                Ok(lit) => Token::Literal(lit).span_spec().start() == *old(i)
                    && *final(i) == *old(i) + Token::Literal(lit).span_spec().width()
                    && *final(i) <= cs@.len()
                    && cursor_at(cs@, *final(current_loc), *final(i) as int, old(current_loc).text())
                    && token_fits(cs@, Token::Literal(lit))
                    && Token::Literal(lit).span_spec().text() == old(current_loc).text()
                    && token_ok(cs@, Token::Literal(lit)),
                Err(e) => error_fits(cs@, e),
            },
            forall|t: Token| #[trigger] token_ok(cs@, t) && t is Literal && t.span_spec().start() == *old(i)
                ==> r is Ok && *final(i) == *old(i) + t.span_spec().width(),
            r matches Err(e) ==> token_fault(cs@, *old(i) as int) == Some((fault_of(e)->0, e.span_spec().start() as int))
                && (e.span_spec().line_spec(), e.span_spec().column()) == line_col(cs@, e.span_spec().start() as int)
                && e.span_spec().text() == old(current_loc).text(),
    {
        let c = cs[*i];
        proof {
            let p = *i as int;
            assert forall|t: Token| #[trigger] token_ok(cs@, t) && t is Literal && t.span_spec().start() == p implies
                (t matches Token::Literal(Literal::Number(..)) ==> number_run(cs@, p, t.span_spec().width() as int))
                && (t matches Token::Literal(Literal::String(..)) ==> string_at(cs@, p, t.span_spec().width() as int))
                && (t matches Token::Literal(Literal::True(_)) ==> cs@[p] == 't')
                && (t matches Token::Literal(Literal::False(_)) ==> cs@[p] == 'f')
                && (t matches Token::Literal(Literal::Null(_)) ==> cs@[p] == 'n') by {
                if p + 4 <= cs@.len() {
                    assert(cs@.subrange(p, p + 4)[0] == cs@[p]);
                }
                if p + 5 <= cs@.len() {
                    assert(cs@.subrange(p, p + 5)[0] == cs@[p]);
                }
            }
        }
        if ('0' <= c && c <= '9') || c == '-' {
            let (span, string) = Self::lex_number(cs, i, current_loc);
            Ok(Literal::Number(span, string))
        } else if c == '"' {
            match Self::lex_string(cs, i, current_loc) {
                Ok((span, string)) => Ok(Literal::String(span, string)),
                Err(e) => Err(e),
            }
        } else if let Some(lit) = Self::lex_word_literal(cs, i, current_loc) {
            Ok(lit)
        } else {
            Err(TokenizeError::InvalidLiteral(current_loc.copy()))
        }
    }

    /// A number literal: the longest run of number characters at `i`.
    fn lex_number(cs: &Vec<char>, i: &mut usize, current_loc: &mut Span<'src>) -> (r: (Span<'src>, String))
        requires
            *old(i) < cs@.len(),
            is_digit(cs@[*old(i) as int]) || cs@[*old(i) as int] == '-',
            cursor_at(cs@, *old(current_loc), *old(i) as int, old(current_loc).text()),
        ensures
            r.0.start() == *old(i),
            *final(i) == *old(i) + r.0.width(),
            *final(i) <= cs@.len(),
            cursor_at(cs@, *final(current_loc), *final(i) as int, old(current_loc).text()),
            token_fits(cs@, Token::Literal(Literal::Number(r.0, r.1))),
            r.0.text() == old(current_loc).text(),
            ends_maximal(cs@, Token::Literal(Literal::Number(r.0, r.1))),
            forall|w: int| #[trigger] number_run(cs@, *old(i) as int, w) ==> *final(i) == *old(i) + w,
    {
        let n = cs.len();
        let ghost text = current_loc.text();
        let ghost s0 = *i as int;
        let mut start_loc = current_loc.copy();
        let mut number = String::new();
        while *i < cs.len() && (('0' <= cs[*i] && cs[*i] <= '9') || cs[*i] == '-' || cs[*i] == 'e'
            || cs[*i] == 'E' || cs[*i] == '.' || cs[*i] == '+')
            invariant
                s0 <= *i <= cs@.len(),
                start_loc.start() == s0,
                start_loc.width() == *i - s0,
                start_loc.text() == text,
                (start_loc.line_spec(), start_loc.column()) == line_col(cs@, s0),
                cursor_at(cs@, *current_loc, *i as int, text),
                number@ == cs@.subrange(s0, *i as int),
                forall|k: int| s0 <= k < *i ==> number_char(#[trigger] cs@[k]),
                s0 == *old(i),
                forall|w: int| #[trigger] number_run(cs@, s0, w) ==> *i <= s0 + w,
            decreases cs@.len() - *i,
        {
            push_char(&mut number, cs[*i]);
            start_loc.len = start_loc.len + 1;
            current_loc.inc_ptr(false);
            *i = *i + 1;
            assert(number@ =~= cs@.subrange(s0, *i as int));
        }
        (start_loc, number)
    }

    /// A string literal starting at the quote at `i`.
    fn lex_string(cs: &Vec<char>, i: &mut usize, current_loc: &mut Span<'src>) -> (r: Result<(Span<'src>, String), TokenizeError<'src>>)
        requires
            *old(i) < cs@.len(),
            cs@[*old(i) as int] == '"',
            cursor_at(cs@, *old(current_loc), *old(i) as int, old(current_loc).text()),
        ensures
            match r {
                Ok((span, string)) => span.start() == *old(i) && *final(i) == *old(i) + span.width()
                    && *final(i) <= cs@.len()
                    && cursor_at(cs@, *final(current_loc), *final(i) as int, old(current_loc).text())
                    && token_fits(cs@, Token::Literal(Literal::String(span, string)))
                    && span.text() == old(current_loc).text()
                    && string_at(cs@, span.start() as int, span.width() as int),
                Err(e) => error_fits(cs@, e),
            },
            forall|w: int| #[trigger] string_at(cs@, *old(i) as int, w) ==> r is Ok && *final(i) == *old(i) + w,
            r matches Err(e) ==> string_fault(cs@, *old(i) + 1) == Some((fault_of(e)->0, e.span_spec().start() as int))
                && (e.span_spec().line_spec(), e.span_spec().column()) == line_col(cs@, e.span_spec().start() as int)
                && e.span_spec().text() == old(current_loc).text(),
    {
        let n = cs.len();
        let ghost text = current_loc.text();
        let ghost s0 = *i as int;
        let mut start_loc = current_loc.copy();
        let mut string = String::new();
        start_loc.len = 1;
        assert forall|w: int| #[trigger] string_at(cs@, s0, w) implies s0 + 1 <= s0 + w - 1 by {}
        assert(cs@.subrange(s0 + 1, s0 + 1) =~= Seq::<char>::empty());
        current_loc.inc_ptr(false);
        assert((current_loc.line_spec(), current_loc.column()) == line_col(cs@, *i + 1));
        *i = *i + 1;
        assert(string@ =~= cs@.subrange(s0 + 1, *i as int));
        loop
            invariant
                s0 < *i <= cs@.len(),
                s0 == *old(i),
                text == old(current_loc).text(),
                cs@[s0] == '"',
                start_loc.start() == s0,
                start_loc.width() == *i - s0,
                start_loc.text() == text,
                (start_loc.line_spec(), start_loc.column()) == line_col(cs@, s0),
                cursor_at(cs@, *current_loc, *i as int, text),
                string@ == cs@.subrange(s0 + 1, *i as int),
                forall|w: int| #[trigger] string_at(cs@, s0, w) ==> *i <= s0 + w - 1
                    && string_body_ok(cs@.subrange(*i as int, s0 + w - 1)),
                string_body_ok(cs@.subrange(s0 + 1, *i as int)),
                string_fault(cs@, s0 + 1) == string_fault(cs@, *i as int),
            decreases cs@.len() - *i,
        {
            if *i >= cs.len() {
                assert(string_fault(cs@, *i as int) == Some((LexFault::UnterminatedString, cs@.len() as int)));
                return Err(TokenizeError::UnterminatedString(into_err_span(current_loc)));
            }
            let ghost i0 = *i as int;
            proof {
                assert forall|w: int| #[trigger] string_at(cs@, s0, w) implies body_step(cs@, i0, s0 + w - 1) by {
                    lemma_body_step(cs@, i0, s0 + w - 1);
                }
            }
            let c = cs[*i];
            assert(cs@[*i as int] == c);
            if c == '\\' {
                push_char(&mut string, c);
                start_loc.len = start_loc.len + 1;
                current_loc.inc_ptr(false);
                assert((current_loc.line_spec(), current_loc.column()) == line_col(cs@, *i + 1));
                *i = *i + 1;
                if *i >= cs.len() {
                    assert(string_fault(cs@, i0) == Some((LexFault::InvalidEscape, i0 + 1)));
                    return Err(TokenizeError::InvalidEscape(into_err_span(current_loc)));
                }
                let d = cs[*i];
                if d == '\\' || d == '/' || d == 'b' || d == 'f' || d == 'n' || d == 'r' || d == 't' || d == '"' {
                    push_char(&mut string, d);
                    start_loc.len = start_loc.len + 1;
                    current_loc.inc_ptr(false);
                    assert((current_loc.line_spec(), current_loc.column()) == line_col(cs@, *i + 1));
                    *i = *i + 1;
                } else if d == 'u' {
                    push_char(&mut string, d);
                    start_loc.len = start_loc.len + 1;
                    current_loc.inc_ptr(false);
                    assert((current_loc.line_spec(), current_loc.column()) == line_col(cs@, *i + 1));
                    *i = *i + 1;
                    if !hex4(cs, *i) {
                        assert(string_fault(cs@, i0) == Some((LexFault::InvalidEscape, i0 + 2)));
                        return Err(TokenizeError::InvalidEscape(into_err_span(current_loc)));
                    }
                    assert(is_hex(cs@[*i as int]) && is_hex(cs@[*i + 1]) && is_hex(cs@[*i + 2]) && is_hex(cs@[*i + 3]));
                    push_char(&mut string, cs[*i]);
                    push_char(&mut string, cs[*i + 1]);
                    push_char(&mut string, cs[*i + 2]);
                    push_char(&mut string, cs[*i + 3]);
                    start_loc.len = start_loc.len + 4;
                    let ghost h = *i as int;
                    current_loc.inc_ptr(false);
                    assert((current_loc.line_spec(), current_loc.column()) == line_col(cs@, h + 1));
                    current_loc.inc_ptr(false);
                    assert((current_loc.line_spec(), current_loc.column()) == line_col(cs@, h + 2));
                    current_loc.inc_ptr(false);
                    assert((current_loc.line_spec(), current_loc.column()) == line_col(cs@, h + 3));
                    current_loc.inc_ptr(false);
                    assert((current_loc.line_spec(), current_loc.column()) == line_col(cs@, h + 4));
                    *i = *i + 4;
                    assert(string@ =~= cs@.subrange(s0 + 1, *i as int));
                } else {
                    assert(string_fault(cs@, i0) == Some((LexFault::InvalidEscape, i0 + 1)));
                    return Err(TokenizeError::InvalidEscape(into_err_span(current_loc)));
                }
                assert(string@ =~= cs@.subrange(s0 + 1, *i as int));
                proof {
                    let atom = cs@.subrange(i0, *i as int);
                    assert(atom[0] == '\\');
                    assert(atom[1] == cs@[i0 + 1]);
                    if atom.len() == 2 {
                        assert(atom.subrange(2, 2) =~= Seq::<char>::empty());
                        assert(string_body_ok(atom.subrange(2, 2)));
                    } else {
                        assert(atom[2] == cs@[i0 + 2] && atom[3] == cs@[i0 + 3] && atom[4] == cs@[i0 + 4] && atom[5] == cs@[i0 + 5]);
                        assert(atom.subrange(6, 6) =~= Seq::<char>::empty());
                        assert(string_body_ok(atom.subrange(6, 6)));
                    }
                    assert(string_body_ok(atom));
                    lemma_body_concat(cs@.subrange(s0 + 1, i0), atom);
                    assert(cs@.subrange(s0 + 1, i0) + atom =~= cs@.subrange(s0 + 1, *i as int));
                }
            } else if c == '"' {
                start_loc.len = start_loc.len + 1;
                current_loc.inc_ptr(false);
                assert((current_loc.line_spec(), current_loc.column()) == line_col(cs@, *i + 1));
                *i = *i + 1;
                assert(cs@[*i - 1] == '"');
                assert(start_loc.width() >= 2);
                assert(string@ == cs@.subrange(s0 + 1, *i - 1));
                assert(token_fits(cs@, Token::Literal(Literal::String(start_loc, string))));
                assert(string_at(cs@, s0, start_loc.width() as int));
                return Ok((start_loc, string));
            } else if c <= '\n' {
                assert(string_fault(cs@, i0) == Some((LexFault::NewlineInString, i0)));
                return Err(TokenizeError::NewlineInString(into_err_span(current_loc)));
            } else {
                push_char(&mut string, c);
                start_loc.len = start_loc.len + 1;
                current_loc.inc_ptr(false);
                assert((current_loc.line_spec(), current_loc.column()) == line_col(cs@, *i + 1));
                *i = *i + 1;
                assert(string@ =~= cs@.subrange(s0 + 1, *i as int));
                proof {
                    let atom = cs@.subrange(i0, *i as int);
                    assert(atom[0] == c);
                    assert(atom.subrange(1, 1) =~= Seq::<char>::empty());
                    assert(string_body_ok(atom.subrange(1, 1)));
                    assert(string_body_ok(atom));
                    lemma_body_concat(cs@.subrange(s0 + 1, i0), atom);
                    assert(cs@.subrange(s0 + 1, i0) + atom =~= cs@.subrange(s0 + 1, *i as int));
                }
            }
        }
    }

    /// `null`, `true` or `false` at `i`, if one is written there.
    fn lex_word_literal(cs: &Vec<char>, i: &mut usize, current_loc: &mut Span<'src>) -> (r: Option<Literal<'src>>)
        requires
            *old(i) < cs@.len(),
            cursor_at(cs@, *old(current_loc), *old(i) as int, old(current_loc).text()),
        ensures
            match r {
                Some(lit) => Token::Literal(lit).span_spec().start() == *old(i)
                    && *final(i) == *old(i) + Token::Literal(lit).span_spec().width()
                    && *final(i) <= cs@.len()
                    && cursor_at(cs@, *final(current_loc), *final(i) as int, old(current_loc).text())
                    && token_fits(cs@, Token::Literal(lit))
                    && Token::Literal(lit).span_spec().text() == old(current_loc).text(),
                None => *final(i) == *old(i) && *final(current_loc) == *old(current_loc)
                    && (cs@[*old(i) as int] == 'n' ==> !word_at(cs@, *old(i) as int, seq!['n', 'u', 'l', 'l']))
                    && (cs@[*old(i) as int] == 't' ==> !word_at(cs@, *old(i) as int, seq!['t', 'r', 'u', 'e']))
                    && (cs@[*old(i) as int] == 'f' ==> !word_at(cs@, *old(i) as int, seq!['f', 'a', 'l', 's', 'e'])),
            },
    {
        let n = cs.len();
        let ghost text = current_loc.text();
        let ghost s0 = *i as int;
        let start_char = cs[*i];
        let null_word = ['n', 'u', 'l', 'l'];
        let true_word = ['t', 'r', 'u', 'e'];
        let false_word = ['f', 'a', 'l', 's', 'e'];
        assert(null_word@ == seq!['n', 'u', 'l', 'l']);
        assert(true_word@ == seq!['t', 'r', 'u', 'e']);
        assert(false_word@ == seq!['f', 'a', 'l', 's', 'e']);
        let length: usize = if start_char == 'n' && word_matches(cs, *i, &null_word) {
            4
        } else if start_char == 't' && word_matches(cs, *i, &true_word) {
            4
        } else if start_char == 'f' && word_matches(cs, *i, &false_word) {
            5
        } else {
            return None;
        };
        let mut start_loc = current_loc.copy();
        start_loc.len = length;
        let ghost word = if start_char == 'n' { null_word@ } else if start_char == 't' { true_word@ } else { false_word@ };
        assert(word_at(cs@, s0, word));
        assert forall|j: int| s0 <= j < s0 + length implies #[trigger] cs@[j] != '\n' by {
            assert(cs@.subrange(s0, s0 + word.len())[j - s0] == word[j - s0]);
        }
        let mut k: usize = 0;
        while k < length
            invariant
                k <= length,
                s0 + length <= cs@.len(),
                n == cs@.len(),
                *i == s0 + k,
                forall|j: int| s0 <= j < s0 + length ==> #[trigger] cs@[j] != '\n',
                cursor_at(cs@, *current_loc, *i as int, text),
            decreases length - k,
        {
            current_loc.inc_ptr(false);
            *i = *i + 1;
            k = k + 1;
        }
        if start_char == 'n' {
            Some(Literal::Null(start_loc))
        } else if start_char == 't' {
            Some(Literal::True(start_loc))
        } else {
            Some(Literal::False(start_loc))
        }
    }
}

} // verus!
