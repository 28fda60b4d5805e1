use vstd::prelude::*;
use vstd::string::StrSliceExecFns;
use crate::error::{Error, ErrorView};
use crate::token::{Token, TokenView};

verus! {

/// Unicode's `White_Space` property.
pub open spec fn is_space(c: char) -> bool {
    ('\u{9}' <= c && c <= '\u{D}') || c == ' ' || c == '\u{85}' || c == '\u{A0}' || c == '\u{1680}'
        || ('\u{2000}' <= c && c <= '\u{200A}') || c == '\u{2028}' || c == '\u{2029}' || c
        == '\u{202F}' || c == '\u{205F}' || c == '\u{3000}'
}

pub open spec fn is_digit(c: char) -> bool {
    '0' <= c && c <= '9'
}

pub open spec fn is_alpha(c: char) -> bool {
    ('a' <= c && c <= 'z') || ('A' <= c && c <= 'Z')
}

pub open spec fn is_alnum(c: char) -> bool {
    is_alpha(c) || is_digit(c)
}

pub open spec fn digit_value(c: char) -> int {
    c as int - '0' as int
}

/// The end of the run of characters satisfying `f` that starts at `p`.
pub open spec fn span_end(text: Seq<char>, p: int, f: spec_fn(char) -> bool) -> int
    decreases text.len() - p,
{
    if 0 <= p < text.len() && f(text[p]) {
        span_end(text, p + 1, f)
    } else {
        p
    }
}

/// The first position at or after `p` that does not hold whitespace.
pub open spec fn skip_space(text: Seq<char>, p: int) -> int {
    span_end(text, p, |c: char| is_space(c))
}

/// The end of the run of decimal digits that starts at `p`.
pub open spec fn digits_end(text: Seq<char>, p: int) -> int {
    span_end(text, p, |c: char| is_digit(c))
}

/// The end of the run of ASCII letters and digits that starts at `p`.
pub open spec fn word_end(text: Seq<char>, p: int) -> int {
    span_end(text, p, |c: char| is_alnum(c))
}

/// Every character of `text[from..to]` satisfies `f`.
pub open spec fn all_in(text: Seq<char>, from: int, to: int, f: spec_fn(char) -> bool) -> bool {
    forall|i: int| from <= i < to ==> #[trigger] f(text[i])
}

proof fn lemma_span_end(text: Seq<char>, p: int, f: spec_fn(char) -> bool)
    requires
        0 <= p <= text.len(),
    ensures
        p <= span_end(text, p, f) <= text.len(),
        all_in(text, p, span_end(text, p, f), f),
        span_end(text, p, f) < text.len() ==> !f(text[span_end(text, p, f)]),
    decreases text.len() - p,
{
    if p < text.len() && f(text[p]) {
        lemma_span_end(text, p + 1, f);
    }
}

/// The decimal number written by the digits `text[from..to]`.
pub open spec fn number_value(text: Seq<char>, from: int, to: int) -> int
    decreases to - from,
{
    if to <= from {
        0
    } else {
        number_value(text, from, to - 1) * 10 + digit_value(text[to - 1])
    }
}

/// The token for a word: a reserved word, or else an identifier.
pub open spec fn word_token(w: Seq<char>) -> TokenView {
    if w == seq!['B', 'E', 'G', 'I', 'N'] {
        TokenView::Begin
    } else if w == seq!['E', 'N', 'D'] {
        TokenView::End
    } else {
        TokenView::Id(w)
    }
}

/// The token for a character that is a token by itself.
pub open spec fn symbol_token(c: char) -> Option<TokenView> {
    if c == '+' {
        Some(TokenView::Plus)
    } else if c == '-' {
        Some(TokenView::Minus)
    } else if c == '*' {
        Some(TokenView::Multiply)
    } else if c == '/' {
        Some(TokenView::Divide)
    } else if c == '(' {
        Some(TokenView::LParen)
    } else if c == ')' {
        Some(TokenView::RParen)
    } else if c == '.' {
        Some(TokenView::Dot)
    } else if c == ';' {
        Some(TokenView::Semi)
    } else {
        None
    }
}

/// The token that starts at or after position `p` of `text`, with the
/// position just past it; or the error that stops lexing there.
pub open spec fn next_token(text: Seq<char>, p: int) -> Result<(TokenView, int), ErrorView> {
    let q = skip_space(text, p);
    if q >= text.len() {
        Ok((TokenView::Eof, q))
    } else {
        let c = text[q];
        if is_digit(c) {
            let e = digits_end(text, q);
            let v = number_value(text, q, e);
            if v > i32::MAX {
                Err(ErrorView::Overflow)
            } else {
                Ok((TokenView::Integer(v as i32), e))
            }
        } else if is_alpha(c) {
            let e = word_end(text, q);
            Ok((word_token(text.subrange(q, e)), e))
        } else if symbol_token(c) is Some {
            Ok((symbol_token(c)->Some_0, q + 1))
        } else if c == ':' && q + 1 < text.len() && text[q + 1] == '=' {
            Ok((TokenView::Assign, q + 2))
        } else {
            Err(ErrorView::Lex { ch: c, pos: q as nat })
        }
    }
}

/// Lexing never moves backwards, and every token but `Eof` consumes at least
/// one character.
pub proof fn lemma_next_token_progress(text: Seq<char>, p: int)
    requires
        0 <= p <= text.len(),
    ensures
        match next_token(text, p) {
            Ok((t, q)) => p <= q <= text.len() && (t is Eof <==> q == text.len() && skip_space(
                text,
                p,
            ) == text.len()) && (!(t is Eof) ==> p < q),
            Err(_) => skip_space(text, p) < text.len(),
        },
{
    lemma_span_end(text, p, |c: char| is_space(c));
    let q = skip_space(text, p);
    if q < text.len() {
        lemma_span_end(text, q, |c: char| is_digit(c));
        lemma_span_end(text, q, |c: char| is_alnum(c));
        let c = text[q];
        if is_digit(c) {
            assert(digits_end(text, q) == digits_end(text, q + 1));
            lemma_span_end(text, q + 1, |c: char| is_digit(c));
        } else if is_alpha(c) {
            assert(word_end(text, q) == word_end(text, q + 1));
            lemma_span_end(text, q + 1, |c: char| is_alnum(c));
        }
    }
}

/// The tokens lexed from position `p` onwards, up to but not including the
/// end of input or the first error.
pub open spec fn tokens_from(text: Seq<char>, p: int) -> Seq<TokenView>
    decreases text.len() - p,
{
    match next_token(text, p) {
        Ok((t, q)) => if !(t is Eof) && p < q <= text.len() {
            seq![t] + tokens_from(text, q)
        } else {
            Seq::empty()
        },
        Err(_) => Seq::empty(),
    }
}

/// How lexing from position `p` onwards stops: `None` at the end of input,
/// or the first error.
pub open spec fn lex_stop(text: Seq<char>, p: int) -> Option<ErrorView>
    decreases text.len() - p,
{
    match next_token(text, p) {
        Ok((t, q)) => if !(t is Eof) && p < q <= text.len() {
            lex_stop(text, q)
        } else {
            None
        },
        Err(e) => Some(e),
    }
}

/// The whole sequence of tokens that a text lexes to.
pub struct Stream {
    /// The tokens before the end of input, or before the first error.
    pub toks: Seq<TokenView>,
    /// The first error, if lexing stops on one.
    pub stop: Option<ErrorView>,
}

impl Stream {
    /// The token at index `i`: past the last token the stream yields `Eof`
    /// for ever, or its error.
    pub open spec fn at(self, i: int) -> Result<TokenView, ErrorView> {
        if 0 <= i < self.toks.len() {
            Ok(self.toks[i])
        } else {
            match self.stop {
                None => Ok(TokenView::Eof),
                Some(e) => Err(e),
            }
        }
    }
}

/// The token stream of a text.
pub open spec fn stream(text: Seq<char>) -> Stream {
    Stream { toks: tokens_from(text, 0), stop: lex_stop(text, 0) }
}

/// One step of lexing, seen on the stream: the token at `p` heads the tokens
/// from `p`, and the rest of them follow from where it ends.
pub proof fn lemma_tokens_step(text: Seq<char>, p: int)
    requires
        0 <= p <= text.len(),
    ensures
        match next_token(text, p) {
            Ok((t, q)) => if t is Eof {
                tokens_from(text, p) == Seq::<TokenView>::empty() && lex_stop(text, p) is None
            } else {
                tokens_from(text, p) == seq![t] + tokens_from(text, q) && lex_stop(text, p)
                    == lex_stop(text, q) && 0 <= q <= text.len()
            },
            Err(e) => tokens_from(text, p) == Seq::<TokenView>::empty() && lex_stop(text, p)
                == Some(e),
        },
{
    lemma_next_token_progress(text, p);
}

/// Past the end of input, the lexer keeps answering `Eof` and stays where it is.
pub proof fn lemma_eof_is_final(text: Seq<char>, p: int)
    requires
        0 <= p <= text.len(),
        next_token(text, p) matches Ok((TokenView::Eof, _)),
    ensures
        next_token(text, next_token(text, p)->Ok_0.1) == next_token(text, p),
{
    lemma_next_token_progress(text, p);
    let q = next_token(text, p)->Ok_0.1;
    assert(q == text.len());
}

/// Turns text into tokens, one token per request.
pub struct Lexer {
    text: String,
    len: usize,
    pos: usize,
}

impl Lexer {
    /// The characters being lexed.
    pub closed spec fn text(&self) -> Seq<char> {
        self.text@
    }

    /// The position (in characters) of the next character to look at.
    pub closed spec fn pos(&self) -> nat {
        self.pos as nat
    }

    pub closed spec fn wf(&self) -> bool {
        self.len == self.text@.len() && self.pos <= self.len
    }

    pub proof fn lemma_pos_in_text(&self)
        requires
            self.wf(),
        ensures
            self.pos() <= self.text().len(),
    {
    }

    /// Moves back to the start of the text.
    pub fn rewind(&mut self)
        ensures
            final(self).wf(),
            final(self).text() == old(self).text(),
            final(self).pos() == 0,
    {
        self.len = self.text.as_str().unicode_len();
        self.pos = 0;
    }

    pub fn new(text: String) -> (l: Lexer)
        ensures
            l.wf(),
            l.text() == text@,
            l.pos() == 0,
    {
        let len = text.as_str().unicode_len();
        Lexer { text, len, pos: 0 }
    }

    /// Returns the next token, `Eof` once the text is used up.
    pub fn get_next_token(&mut self) -> (r: Result<Token, Error>)
        requires
            old(self).wf(),
        ensures
            final(self).wf(),
            final(self).text() == old(self).text(),
            match next_token(old(self).text(), old(self).pos() as int) {
                Ok((t, q)) => r is Ok && r->Ok_0@ == t && final(self).pos() == q,
                Err(e) => r is Err && r->Err_0@ == e,
            },
    {
        self.skip_whitespaces();
        if self.pos >= self.len {
            return Ok(Token::Eof);
        }
        let c = self.current_char();
        if is_digit_char(c) {
            self.get_integer()
        } else if is_alpha_char(c) {
            Ok(self.get_id())
        } else if c == '+' {
            self.advance();
            Ok(Token::Plus)
        } else if c == '-' {
            self.advance();
            Ok(Token::Minus)
        } else if c == '*' {
            self.advance();
            Ok(Token::Multiply)
        } else if c == '/' {
            self.advance();
            Ok(Token::Divide)
        } else if c == '(' {
            self.advance();
            Ok(Token::LParen)
        } else if c == ')' {
            self.advance();
            Ok(Token::RParen)
        } else if c == '.' {
            self.advance();
            Ok(Token::Dot)
        } else if c == ';' {
            self.advance();
            Ok(Token::Semi)
        } else if c == ':' && self.peek() == Some('=') {
            self.advance();
            self.advance();
            Ok(Token::Assign)
        } else {
            Err(Error::Lex { ch: c, pos: self.pos })
        }
    }

    fn current_char(&self) -> (c: char)
        requires
            self.wf(),
            self.pos < self.len,
        ensures
            c == self.text@[self.pos as int],
    {
        self.text.as_str().get_char(self.pos)
    }

    fn advance(&mut self)
        requires
            old(self).wf(),
            old(self).pos < old(self).len,
        ensures
            final(self).wf(),
            final(self).text == old(self).text,
            final(self).pos == old(self).pos + 1,
    {
        self.pos += 1;
    }

    /// The character after the current one, if there is one.
    fn peek(&self) -> (r: Option<char>)
        requires
            self.wf(),
        ensures
            r == if self.pos + 1 < self.text@.len() {
                Some(self.text@[self.pos + 1])
            } else {
                None::<char>
            },
    {
        if self.len - self.pos > 1 {
            Some(self.text.as_str().get_char(self.pos + 1))
        } else {
            None
        }
    }

    fn skip_whitespaces(&mut self)
        requires
            old(self).wf(),
        ensures
            final(self).wf(),
            final(self).text == old(self).text,
            final(self).pos == skip_space(old(self).text@, old(self).pos as int),
    {
        while self.pos < self.len && is_whitespace(self.current_char())
            invariant
                self.wf(),
                self.text == old(self).text,
                skip_space(self.text@, self.pos as int) == skip_space(
                    self.text@,
                    old(self).pos as int,
                ),
            decreases self.len - self.pos,
        {
            self.advance();
        }
    }

    /// Reads the run of digits at the current position as a number.
    fn get_integer(&mut self) -> (r: Result<Token, Error>)
        requires
            old(self).wf(),
            old(self).pos < old(self).len,
            is_digit(old(self).text@[old(self).pos as int]),
        ensures
            final(self).wf(),
            final(self).text == old(self).text,
            ({
                let t = old(self).text@;
                let e = digits_end(t, old(self).pos as int);
                let v = number_value(t, old(self).pos as int, e);
                if v > i32::MAX {
                    r is Err && r->Err_0@ == ErrorView::Overflow
                } else {
                    r is Ok && r->Ok_0@ == TokenView::Integer(v as i32) && final(self).pos == e
                }
            }),
    {
        let ghost t = self.text@;
        let ghost start = self.pos as int;
        let mut integer: i32 = 0;
        proof {
            lemma_span_end(t, start, |c: char| is_digit(c));
        }
        while self.pos < self.len && is_digit_char(self.current_char())
            invariant
                self.wf(),
                self.text == old(self).text,
                t == self.text@,
                start == old(self).pos,
                integer >= 0,
                start <= self.pos,
                digits_end(t, self.pos as int) == digits_end(t, start),
                all_in(t, start, digits_end(t, start), |c: char| is_digit(c)),
                digits_end(t, start) <= t.len(),
                integer == number_value(t, start, self.pos as int),
            decreases self.len - self.pos,
        {
            let c = self.current_char();
            let d = (c as u32 - '0' as u32) as i64;
            assert(d == digit_value(c));
            let next: i64 = integer as i64 * 10 + d;
            if next > i32::MAX as i64 {
                proof {
                    let p = self.pos as int;
                    assert(number_value(t, start, p + 1) == next);
                    lemma_span_end(t, p + 1, |c: char| is_digit(c));
                    assert(digits_end(t, p) == digits_end(t, p + 1));
                    lemma_number_grows(t, start, p + 1, digits_end(t, start));
                }
                return Err(Error::Overflow);
            }
            integer = next as i32;
            self.advance();
        }
        Ok(Token::Integer(integer))
    }

    /// Reads the run of letters and digits at the current position as a
    /// reserved word or an identifier.
    fn get_id(&mut self) -> (t: Token)
        requires
            old(self).wf(),
            old(self).pos < old(self).len,
            is_alpha(old(self).text@[old(self).pos as int]),
        ensures
            final(self).wf(),
            final(self).text == old(self).text,
            final(self).pos == word_end(old(self).text@, old(self).pos as int),
            t@ == word_token(old(self).text@.subrange(old(self).pos as int, final(self).pos as int)),
    {
        let beg = self.pos;
        while self.pos < self.len && is_alnum_char(self.current_char())
            invariant
                self.wf(),
                self.text == old(self).text,
                beg <= self.pos,
                word_end(self.text@, self.pos as int) == word_end(self.text@, beg as int),
            decreases self.len - self.pos,
        {
            self.advance();
        }
        let w = self.text.as_str().substring_char(beg, self.pos);
        proof {
            reveal_strlit("BEGIN");
            reveal_strlit("END");
            assert("BEGIN"@ =~= seq!['B', 'E', 'G', 'I', 'N']);
            assert("END"@ =~= seq!['E', 'N', 'D']);
        }
        if same_chars(w, "BEGIN") {
            Token::Begin
        } else if same_chars(w, "END") {
            Token::End
        } else {
            Token::Id(w.to_owned())
        }
    }
}

proof fn lemma_number_grows(text: Seq<char>, from: int, k: int, to: int)
    requires
        from <= k <= to,
        all_in(text, from, to, |c: char| is_digit(c)),
    ensures
        0 <= number_value(text, from, k) <= number_value(text, from, to),
    decreases to - k,
{
    if k < to {
        assert((|c: char| is_digit(c))(text[to - 1]));
        lemma_number_grows(text, from, k, to - 1);
    } else {
        lemma_number_nonneg(text, from, k);
    }
}

proof fn lemma_number_nonneg(text: Seq<char>, from: int, to: int)
    requires
        all_in(text, from, to, |c: char| is_digit(c)),
    ensures
        0 <= number_value(text, from, to),
    decreases to - from,
{
    if from < to {
        assert((|c: char| is_digit(c))(text[to - 1]));
        lemma_number_nonneg(text, from, to - 1);
    }
}

pub fn is_digit_char(c: char) -> (r: bool)
    ensures
        r == is_digit(c),
{
    '0' <= c && c <= '9'
}

pub fn is_alpha_char(c: char) -> (r: bool)
    ensures
        r == is_alpha(c),
{
    ('a' <= c && c <= 'z') || ('A' <= c && c <= 'Z')
}

pub fn is_alnum_char(c: char) -> (r: bool)
    ensures
        r == is_alnum(c),
{
    is_alpha_char(c) || is_digit_char(c)
}

/// Compares two strings character by character.
pub(crate) fn same_chars(a: &str, b: &str) -> (r: bool)
    ensures
        r == (a@ == b@),
{
    let n = a.unicode_len();
    if n != b.unicode_len() {
        return false;
    }
    let mut i: usize = 0;
    while i < n
        invariant
            n == a@.len(),
            n == b@.len(),
            i <= n,
            a@.subrange(0, i as int) == b@.subrange(0, i as int),
        decreases n - i,
    {
        if a.get_char(i) != b.get_char(i) {
            return false;
        }
        assert(a@.subrange(0, i + 1) =~= a@.subrange(0, i as int).push(a@[i as int]));
        assert(b@.subrange(0, i + 1) =~= b@.subrange(0, i as int).push(b@[i as int]));
        i += 1;
    }
    assert(a@ =~= a@.subrange(0, n as int));
    assert(b@ =~= b@.subrange(0, n as int));
    true
}

/// Tests `c` against Unicode's `White_Space` property.
pub fn is_whitespace(c: char) -> (r: bool)
    ensures
        r == is_space(c),
{
    ('\u{9}' <= c && c <= '\u{D}') || c == ' ' || c == '\u{85}' || c == '\u{A0}' || c == '\u{1680}'
        || ('\u{2000}' <= c && c <= '\u{200A}') || c == '\u{2028}' || c == '\u{2029}' || c
        == '\u{202F}' || c == '\u{205F}' || c == '\u{3000}'
}

} // verus!
