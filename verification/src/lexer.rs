//! The lexer: one left-to-right scan over the source characters that yields a
//! flat token sequence, or the first error it meets.
//!
//! Whitespace is skipped; each structural character maps to its token; a
//! double quote opens a string literal whose body is taken verbatim (a
//! backslash skips the character after it, and nothing is decoded); any other
//! character opens a bareword, the longest run of non-delimiter characters,
//! which must be a number literal.

use vstd::prelude::*;
use crate::ast::{JsonError, Token, SpecToken, toks_view};
use crate::number::is_float_text;
use crate::number::is_float_literal;

verus! {

/// The whitespace characters the scanner skips.
pub open spec fn is_ws(c: char) -> bool {
    c == ' ' || c == '\n' || c == '\t' || c == '\r'
}

/// A delimiter ends a bareword: structural punctuation or whitespace.
pub open spec fn spec_is_delim(c: char) -> bool {
    c == ',' || c == '{' || c == '}' || c == '[' || c == ']' || c == ':' || is_ws(c)
}

/// Whether `c` ends a bareword.
pub fn is_delim(c: char) -> (r: bool)
    ensures
        r == spec_is_delim(c),
{
    c == ',' || c == '{' || c == '}' || c == '[' || c == ']' || c == ':' || c == ' '
        || c == '\n' || c == '\t' || c == '\r'
}

/// Scans a string body. `s` holds the characters after the opening quote;
/// the result is the index of the closing quote, or `None` when the input
/// ends first. A backslash skips the character after it.
pub open spec fn scan_string(s: Seq<char>) -> Option<int>
    decreases s.len(),
{
    if s.len() == 0 {
        None
    } else if s[0] == '"' {
        Some(0int)
    } else if s[0] == '\\' {
        if s.len() == 1 {
            None
        } else {
            match scan_string(s.skip(2)) {
                Some(n) => Some(n + 2),
                None => None,
            }
        }
    } else {
        match scan_string(s.skip(1)) {
            Some(n) => Some(n + 1),
            None => None,
        }
    }
}

/// A found closing quote lies inside the scanned characters, and is a quote.
pub proof fn lemma_scan_string_bounds(s: Seq<char>)
    ensures
        match scan_string(s) {
            Some(n) => 0 <= n < s.len() && s[n] == '"',
            None => true,
        },
    decreases s.len(),
{
    if s.len() > 0 && s[0] != '"' {
        if s[0] == '\\' {
            if s.len() > 1 {
                lemma_scan_string_bounds(s.skip(2));
            }
        } else {
            lemma_scan_string_bounds(s.skip(1));
        }
    }
}

/// Scans a bareword: the length of the longest delimiter-free prefix of `s`.
pub open spec fn scan_bareword(s: Seq<char>) -> int
    decreases s.len(),
{
    if s.len() == 0 || spec_is_delim(s[0]) {
        0
    } else {
        1 + scan_bareword(s.skip(1))
    }
}

/// `scan_bareword` stops exactly at the first delimiter (or the end).
pub proof fn lemma_scan_bareword_exact(s: Seq<char>, m: int)
    requires
        0 <= m <= s.len(),
        forall|k: int| 0 <= k < m ==> !spec_is_delim(s[k]),
        m < s.len() ==> spec_is_delim(s[m]),
    ensures
        scan_bareword(s) == m,
    decreases m,
{
    if m == 0 {
    } else {
        assert(!spec_is_delim(s[0]));
        lemma_scan_bareword_exact(s.skip(1), m - 1);
    }
}

/// Puts one token in front of a lexing result.
pub open spec fn lex_push(t: SpecToken, r: Result<Seq<SpecToken>, JsonError>) -> Result<
    Seq<SpecToken>,
    JsonError,
> {
    match r {
        Ok(ts) => Ok(seq![t] + ts),
        Err(e) => Err(e),
    }
}

/// Puts finished tokens in front of a lexing result.
pub open spec fn lex_concat(done: Seq<SpecToken>, r: Result<Seq<SpecToken>, JsonError>) -> Result<
    Seq<SpecToken>,
    JsonError,
> {
    match r {
        Ok(ts) => Ok(done + ts),
        Err(e) => Err(e),
    }
}

/// The token sequence of a source text, or the first lexing error: one
/// left-to-right scan, one token per step.
pub open spec fn spec_lex(s: Seq<char>) -> Result<Seq<SpecToken>, JsonError>
    decreases s.len(),
    via spec_lex_dec
{
    if s.len() == 0 {
        Ok(Seq::empty())
    } else if is_ws(s[0]) {
        spec_lex(s.skip(1))
    } else if s[0] == '{' {
        lex_push(SpecToken::LeftBrace, spec_lex(s.skip(1)))
    } else if s[0] == '}' {
        lex_push(SpecToken::RightBrace, spec_lex(s.skip(1)))
    } else if s[0] == '[' {
        lex_push(SpecToken::LeftBracket, spec_lex(s.skip(1)))
    } else if s[0] == ']' {
        lex_push(SpecToken::RightBracket, spec_lex(s.skip(1)))
    } else if s[0] == ',' {
        lex_push(SpecToken::Comma, spec_lex(s.skip(1)))
    } else if s[0] == ':' {
        lex_push(SpecToken::Colon, spec_lex(s.skip(1)))
    } else if s[0] == '"' {
        match scan_string(s.skip(1)) {
            Some(n) => lex_push(
                SpecToken::StringLiteral(s.subrange(1, n + 1)),
                spec_lex(s.skip(n + 2)),
            ),
            None => Err(JsonError::UnterminatedString),
        }
    } else {
        let w = s.subrange(0, scan_bareword(s));
        if is_float_text(w) {
            lex_push(SpecToken::NumberLiteral(w), spec_lex(s.skip(scan_bareword(s))))
        } else {
            Err(JsonError::NumberFormatError)
        }
    }
}

#[via_fn]
proof fn spec_lex_dec(s: Seq<char>) {
    if s.len() > 0 {
        if s[0] == '"' {
            lemma_scan_string_bounds(s.skip(1));
        } else if !is_ws(s[0]) && s[0] != '{' && s[0] != '}' && s[0] != '[' && s[0] != ']'
            && s[0] != ',' && s[0] != ':' {
            assert(!spec_is_delim(s[0]));
            assert(scan_bareword(s) == 1 + scan_bareword(s.skip(1)));
            lemma_scan_bareword_nonneg(s.skip(1));
            lemma_scan_bareword_max(s);
        }
    }
}

/// A bareword scan never runs backwards.
pub proof fn lemma_scan_bareword_nonneg(s: Seq<char>)
    ensures
        scan_bareword(s) >= 0,
    decreases s.len(),
{
    if s.len() > 0 && !spec_is_delim(s[0]) {
        lemma_scan_bareword_nonneg(s.skip(1));
    }
}

/// A bareword scan never runs past the end.
pub proof fn lemma_scan_bareword_max(s: Seq<char>)
    ensures
        scan_bareword(s) <= s.len(),
    decreases s.len(),
{
    if s.len() > 0 && !spec_is_delim(s[0]) {
        lemma_scan_bareword_max(s.skip(1));
    }
}

/// Shifts a scan result found `d` characters into a longer text.
pub open spec fn opt_shift(o: Option<int>, d: int) -> Option<int> {
    match o {
        Some(n) => Some(n + d),
        None => None,
    }
}

/// The views of a pushed token sequence.
proof fn lemma_toks_view_push(ts: Seq<Token>, t: Token)
    ensures
        toks_view(ts.push(t)) == toks_view(ts).push(t@),
{
    assert(toks_view(ts.push(t)) =~= toks_view(ts).push(t@));
}

/// Finished tokens pass through `lex_push` one at a time.
proof fn lemma_lex_concat_push(
    done: Seq<SpecToken>,
    t: SpecToken,
    r: Result<Seq<SpecToken>, JsonError>,
)
    ensures
        lex_concat(done, lex_push(t, r)) == lex_concat(done.push(t), r),
{
    match r {
        Ok(ts) => {
            assert(done + (seq![t] + ts) =~= done.push(t) + ts);
        },
        Err(_) => {},
    }
}

/// The lexer: it owns the source text and collects the tokens it finds.
pub struct Lexer {
    pub tokens: Vec<Token>,
    pub source: String,
}

impl Lexer {
    /// A lexer over `source`, with no tokens found yet.
    pub fn new(source: String) -> (r: Lexer)
        ensures
            r.source@ == source@,
            r.tokens@ =~= Seq::<Token>::empty(),
    {
        Lexer { tokens: Vec::new(), source }
    }

    /// One scan over the whole source: on success the found tokens are
    /// appended, in order; otherwise the first error, in source order.
    pub fn lex(&mut self) -> (r: Result<(), JsonError>)
        ensures
            final(self).source == old(self).source,
            match spec_lex(old(self).source@) {
                Ok(ts) => r == Ok::<(), JsonError>(())
                    && toks_view(final(self).tokens@) == toks_view(old(self).tokens@) + ts,
                Err(e) => r == Err::<(), JsonError>(e),
            },
    {
        let ghost src = self.source@;
        let ghost toks0 = toks_view(self.tokens@);
        let ghost mut done: Seq<SpecToken> = Seq::empty();
        proof {
            assert(toks0 + done =~= toks0);
        }
        let n = self.source.as_str().unicode_len();
        proof {
            assert(src.skip(0) =~= src);
            match spec_lex(src) {
                Ok(ts) => {
                    assert(Seq::<SpecToken>::empty() + ts =~= ts);
                },
                Err(_) => {},
            }
        }
        let mut i: usize = 0;
        while i < n
            invariant
                n == src.len(),
                self.source == old(self).source,
                src == self.source@,
                0 <= i <= n,
                toks_view(self.tokens@) == toks0 + done,
                spec_lex(src) == lex_concat(done, spec_lex(src.skip(i as int))),
                toks0 == toks_view(old(self).tokens@),
            decreases n - i,
        {
            let ghost rest = src.skip(i as int);
            let c = self.source.as_str().get_char(i);
            assert(c == rest[0]);
            if c == ' ' || c == '\n' || c == '\t' || c == '\r' {
                proof {
                    assert(rest.skip(1) =~= src.skip(i + 1));
                }
                i = i + 1;
            } else if c == '{' || c == '}' || c == '[' || c == ']' || c == ',' || c == ':' {
                let t = if c == '{' {
                    Token::LeftBrace
                } else if c == '}' {
                    Token::RightBrace
                } else if c == '[' {
                    Token::LeftBracket
                } else if c == ']' {
                    Token::RightBracket
                } else if c == ',' {
                    Token::Comma
                } else {
                    Token::Colon
                };
                proof {
                    assert(rest.skip(1) =~= src.skip(i + 1));
                    assert(spec_lex(rest) == lex_push(t@, spec_lex(src.skip(i + 1))));
                    lemma_lex_concat_push(done, t@, spec_lex(src.skip(i + 1)));
                    lemma_toks_view_push(self.tokens@, t);
                    assert((toks0 + done).push(t@) =~= toks0 + done.push(t@));
                    done = done.push(t@);
                }
                self.tokens.push(t);
                i = i + 1;
            } else if c == '"' {
                let start = i + 1;
                let ghost body = src.skip(start as int);
                proof {
                    assert(rest.skip(1) =~= body);
                }
                let mut j: usize = start;
                let mut close: usize = 0;
                let mut found = false;
                let mut dead = false;
                while j < n && !found && !dead
                    invariant
                        n == src.len(),
                        src == self.source@,
                        start <= j <= n,
                        body == src.skip(start as int),
                        start <= n,
                        found ==> start <= close < n && src[close as int] == '"'
                            && scan_string(body) == Some(close - start),
                        dead ==> scan_string(body) == None::<int>,
                        !found && !dead ==> scan_string(body) == opt_shift(
                            scan_string(src.skip(j as int)),
                            j - start,
                        ),
                        self.source == old(self).source,
                    decreases n - j, (if found || dead { 0int } else { 1int }),
                {
                    let ghost tail = src.skip(j as int);
                    let cj = self.source.as_str().get_char(j);
                    assert(cj == tail[0]);
                    if cj == '"' {
                        found = true;
                        close = j;
                        proof {
                            assert(scan_string(tail) == Some(0int));
                        }
                    } else if cj == '\\' {
                        if n - j >= 2 {
                            proof {
                                assert(tail.skip(2) =~= src.skip(j + 2));
                                assert(scan_string(tail) == opt_shift(
                                    scan_string(src.skip(j + 2)),
                                    2,
                                ));
                            }
                            j = j + 2;
                        } else {
                            proof {
                                assert(tail.len() == 1);
                                assert(scan_string(tail) == None::<int>);
                            }
                            dead = true;
                        }
                    } else {
                        proof {
                            assert(tail.skip(1) =~= src.skip(j + 1));
                            assert(scan_string(tail) == opt_shift(scan_string(src.skip(j + 1)), 1));
                        }
                        j = j + 1;
                    }
                }
                if found {
                    let payload = self.source.as_str().substring_char(start, close).to_owned();
                    let t = Token::StringLiteral(payload);
                    proof {
                        let m = close - start;
                        assert(rest.subrange(1, m + 1) =~= src.subrange(start as int, close as int));
                        assert(spec_lex(rest) == lex_push(t@, spec_lex(rest.skip(m + 2))));
                        assert(rest.skip(m + 2) =~= src.skip(close + 1));
                        lemma_lex_concat_push(done, t@, spec_lex(src.skip(close + 1)));
                        lemma_toks_view_push(self.tokens@, t);
                        assert((toks0 + done).push(t@) =~= toks0 + done.push(t@));
                        done = done.push(t@);
                    }
                    self.tokens.push(t);
                    i = close + 1;
                } else {
                    proof {
                        if !dead {
                            assert(j == n);
                            assert(src.skip(n as int).len() == 0);
                            assert(scan_string(body) == None::<int>);
                        }
                        assert(spec_lex(rest) == Err::<Seq<SpecToken>, JsonError>(
                            JsonError::UnterminatedString,
                        ));
                    }
                    return Err(JsonError::UnterminatedString);
                }
            } else {
                let start = i;
                let mut j: usize = i;
                let mut hit = false;
                while j < n && !hit
                    invariant
                        n == src.len(),
                        src == self.source@,
                        start <= j <= n,
                        hit ==> j < n && spec_is_delim(src[j as int]),
                        forall|k: int| start <= k < j ==> !spec_is_delim(src[k]),
                        self.source == old(self).source,
                    decreases n - j, (if hit { 0int } else { 1int }),
                {
                    let cj = self.source.as_str().get_char(j);
                    if is_delim(cj) {
                        hit = true;
                    } else {
                        j = j + 1;
                    }
                }
                proof {
                    assert(rest[0] == src[start as int]);
                    assert(!spec_is_delim(src[start as int]));
                    assert forall|k: int| 0 <= k < j - start implies !spec_is_delim(
                        rest[k],
                    ) by {
                        assert(rest[k] == src[k + start]);
                    }
                    if j < n {
                        assert(spec_is_delim(rest[j - start]));
                    }
                    lemma_scan_bareword_exact(rest, j - start);
                }
                let word = self.source.as_str().substring_char(start, j);
                assert(word@ =~= rest.subrange(0, scan_bareword(rest)));
                if is_float_literal(word) {
                    let t = Token::NumberLiteral(word.to_owned());
                    proof {
                        assert(spec_lex(rest) == lex_push(t@, spec_lex(rest.skip(j - start))));
                        assert(rest.skip(j - start) =~= src.skip(j as int));
                        lemma_lex_concat_push(done, t@, spec_lex(src.skip(j as int)));
                        lemma_toks_view_push(self.tokens@, t);
                        assert((toks0 + done).push(t@) =~= toks0 + done.push(t@));
                        done = done.push(t@);
                    }
                    self.tokens.push(t);
                    i = j;
                } else {
                    proof {
                        assert(spec_lex(rest) == Err::<Seq<SpecToken>, JsonError>(
                            JsonError::NumberFormatError,
                        ));
                    }
                    return Err(JsonError::NumberFormatError);
                }
            }
        }
        proof {
            assert(src.skip(n as int).len() == 0);
            assert(spec_lex(src.skip(n as int)) == Ok::<Seq<SpecToken>, JsonError>(Seq::empty()));
            assert(done + Seq::<SpecToken>::empty() =~= done);
        }
        Ok(())
    }
}

} // verus!
