//! The parser: recursive descent over the token sequence, by index. Each
//! sub-parse consumes the tokens of one construct and never looks behind its
//! starting position. Every token access is range-checked: running out of
//! tokens is `UnexpectedEndOfInput`, never an abort.

use vstd::prelude::*;
use crate::ast::{JsonError, Token, SpecToken, JsonExpression, SpecJson, toks_view, view_elems,
    view_members, lemma_view_elems, lemma_view_members};

verus! {

/// Parses one expression at `i`: an object, an array, a number, or a string.
/// Returns the value and the index after it.
pub open spec fn sp_parse_expr(ts: Seq<SpecToken>, i: int) -> Result<(SpecJson, int), JsonError>
    decreases ts.len() - i, 2int,
{
    if i < 0 || i >= ts.len() {
        Err(JsonError::UnexpectedEndOfInput)
    } else {
        match ts[i] {
            SpecToken::LeftBracket => sp_parse_array(ts, i),
            SpecToken::LeftBrace => sp_parse_object(ts, i),
            SpecToken::NumberLiteral(w) => Ok((SpecJson::Number(w), i + 1)),
            SpecToken::StringLiteral(w) => Ok((SpecJson::String(w), i + 1)),
            _ => Err(JsonError::SyntaxError),
        }
    }
}

/// Parses an array at `i`: `[`, then either `]` at once, or elements
/// separated by commas, then `]`.
pub open spec fn sp_parse_array(ts: Seq<SpecToken>, i: int) -> Result<(SpecJson, int), JsonError>
    decreases ts.len() - i, 1int,
{
    if i < 0 || i >= ts.len() {
        Err(JsonError::UnexpectedEndOfInput)
    } else if ts[i] != SpecToken::LeftBracket {
        Err(JsonError::SyntaxError)
    } else if i + 1 >= ts.len() {
        Err(JsonError::UnexpectedEndOfInput)
    } else if ts[i + 1] == SpecToken::RightBracket {
        Ok((SpecJson::Array(Seq::empty()), i + 2))
    } else {
        match sp_parse_elems(ts, i + 1) {
            Ok((es, j)) => {
                if j >= ts.len() {
                    Err(JsonError::UnexpectedEndOfInput)
                } else if ts[j] == SpecToken::RightBracket {
                    Ok((SpecJson::Array(es), j + 1))
                } else {
                    Err(JsonError::SyntaxError)
                }
            },
            Err(e) => Err(e),
        }
    }
}

/// Parses one or more comma-separated elements at `i`. Returns the elements
/// and the index of the token that ended the list (never a comma).
pub open spec fn sp_parse_elems(ts: Seq<SpecToken>, i: int) -> Result<
    (Seq<SpecJson>, int),
    JsonError,
>
    decreases ts.len() - i, 3int,
{
    match sp_parse_expr(ts, i) {
        Ok((v, j)) => {
            if j <= i || j > ts.len() {
                // an expression always consumes at least one token; not reached
                Err(JsonError::SyntaxError)
            } else if j == ts.len() {
                Err(JsonError::UnexpectedEndOfInput)
            } else if ts[j] == SpecToken::Comma {
                match sp_parse_elems(ts, j + 1) {
                    Ok((es, k)) => Ok((seq![v] + es, k)),
                    Err(e) => Err(e),
                }
            } else {
                Ok((seq![v], j))
            }
        },
        Err(e) => Err(e),
    }
}

/// Parses an object at `i`: `{`, then either `}` at once, or members
/// separated by commas, then `}`.
pub open spec fn sp_parse_object(ts: Seq<SpecToken>, i: int) -> Result<(SpecJson, int), JsonError>
    decreases ts.len() - i, 1int,
{
    if i < 0 || i >= ts.len() {
        Err(JsonError::UnexpectedEndOfInput)
    } else if ts[i] != SpecToken::LeftBrace {
        Err(JsonError::SyntaxError)
    } else if i + 1 >= ts.len() {
        Err(JsonError::UnexpectedEndOfInput)
    } else if ts[i + 1] == SpecToken::RightBrace {
        Ok((SpecJson::Object(Seq::empty()), i + 2))
    } else {
        match sp_parse_members(ts, i + 1) {
            Ok((ms, j)) => {
                if j >= ts.len() {
                    Err(JsonError::UnexpectedEndOfInput)
                } else if ts[j] == SpecToken::RightBrace {
                    Ok((SpecJson::Object(ms), j + 1))
                } else {
                    Err(JsonError::SyntaxError)
                }
            },
            Err(e) => Err(e),
        }
    }
}

/// Parses one or more comma-separated members at `i`: a string key, a colon,
/// a value. Returns the members and the index of the token that ended the
/// list (never a comma).
pub open spec fn sp_parse_members(ts: Seq<SpecToken>, i: int) -> Result<
    (Seq<(Seq<char>, SpecJson)>, int),
    JsonError,
>
    decreases ts.len() - i, 3int,
{
    if i < 0 || i >= ts.len() {
        Err(JsonError::UnexpectedEndOfInput)
    } else {
        match ts[i] {
            SpecToken::StringLiteral(k) => {
                if i + 1 >= ts.len() {
                    Err(JsonError::UnexpectedEndOfInput)
                } else if ts[i + 1] != SpecToken::Colon {
                    Err(JsonError::SyntaxError)
                } else {
                    match sp_parse_expr(ts, i + 2) {
                        Ok((v, j)) => {
                            if j <= i + 2 || j > ts.len() {
                                // an expression always consumes a token; not reached
                                Err(JsonError::SyntaxError)
                            } else if j == ts.len() {
                                Err(JsonError::UnexpectedEndOfInput)
                            } else if ts[j] == SpecToken::Comma {
                                match sp_parse_members(ts, j + 1) {
                                    Ok((ms, p)) => Ok((seq![(k, v)] + ms, p)),
                                    Err(e) => Err(e),
                                }
                            } else {
                                Ok((seq![(k, v)], j))
                            }
                        },
                        Err(e) => Err(e),
                    }
                }
            },
            _ => Err(JsonError::SyntaxError),
        }
    }
}

/// Parses a document at `i`: the root must be an object or an array; a bare
/// scalar at top level is a syntax error.
pub open spec fn sp_parse(ts: Seq<SpecToken>, i: int) -> Result<SpecJson, JsonError> {
    if i < 0 || i >= ts.len() {
        Err(JsonError::UnexpectedEndOfInput)
    } else {
        match ts[i] {
            SpecToken::LeftBrace => sp_drop_pos(sp_parse_object(ts, i)),
            SpecToken::LeftBracket => sp_drop_pos(sp_parse_array(ts, i)),
            _ => Err(JsonError::SyntaxError),
        }
    }
}

/// Keeps a parse result's value and forgets its end position.
pub open spec fn sp_drop_pos(r: Result<(SpecJson, int), JsonError>) -> Result<
    SpecJson,
    JsonError,
> {
    match r {
        Ok((v, _)) => Ok(v),
        Err(e) => Err(e),
    }
}

/// Parses one expression of `tokens` starting at `i`; gives the value and
/// the index after it, or the error and `i` unchanged.
fn expr_at(tokens: &Vec<Token>, i: usize) -> (r: (Result<JsonExpression, JsonError>, usize))
    ensures
        match sp_parse_expr(toks_view(tokens@), i as int) {
            Ok((v, j)) => r.0 matches Ok(e) && e@ == v && r.1 == j && i < j <= tokens@.len(),
            Err(e) => r.0 == Err::<JsonExpression, JsonError>(e) && r.1 == i,
        },
    decreases tokens@.len() - i, 2int,
{
    let ghost ts = toks_view(tokens@);
    if i >= tokens.len() {
        return (Err(JsonError::UnexpectedEndOfInput), i);
    }
    assert(ts[i as int] == tokens@[i as int]@);
    match &tokens[i] {
        Token::LeftBracket => array_at(tokens, i),
        Token::LeftBrace => object_at(tokens, i),
        Token::NumberLiteral(w) => (Ok(JsonExpression::Number(w.clone())), i + 1),
        Token::StringLiteral(w) => (Ok(JsonExpression::String(w.clone())), i + 1),
        _ => (Err(JsonError::SyntaxError), i),
    }
}

/// Parses an array of `tokens` starting at `i`.
fn array_at(tokens: &Vec<Token>, i: usize) -> (r: (Result<JsonExpression, JsonError>, usize))
    ensures
        match sp_parse_array(toks_view(tokens@), i as int) {
            Ok((v, j)) => r.0 matches Ok(e) && e@ == v && r.1 == j && i < j <= tokens@.len(),
            Err(e) => r.0 == Err::<JsonExpression, JsonError>(e) && r.1 == i,
        },
    decreases tokens@.len() - i, 1int,
{
    let ghost ts = toks_view(tokens@);
    if i >= tokens.len() {
        return (Err(JsonError::UnexpectedEndOfInput), i);
    }
    assert(ts[i as int] == tokens@[i as int]@);
    match &tokens[i] {
        Token::LeftBracket => {},
        _ => {
            return (Err(JsonError::SyntaxError), i);
        },
    }
    if i + 1 >= tokens.len() {
        return (Err(JsonError::UnexpectedEndOfInput), i);
    }
    assert(ts[i + 1] == tokens@[i + 1]@);
    let empty = match &tokens[i + 1] {
        Token::RightBracket => true,
        _ => false,
    };
    if empty {
        let es: Vec<JsonExpression> = Vec::new();
        proof {
            assert(view_elems(es@) =~= Seq::<SpecJson>::empty());
        }
        return (Ok(JsonExpression::Array(es)), i + 2);
    }
    let (er, j) = elems_at(tokens, i + 1);
    match er {
        Ok(es) => {
            if j >= tokens.len() {
                return (Err(JsonError::UnexpectedEndOfInput), i);
            }
            assert(ts[j as int] == tokens@[j as int]@);
            match &tokens[j] {
                Token::RightBracket => (Ok(JsonExpression::Array(es)), j + 1),
                _ => (Err(JsonError::SyntaxError), i),
            }
        },
        Err(e) => (Err(e), i),
    }
}

/// Parses comma-separated elements of `tokens` starting at `i`.
fn elems_at(tokens: &Vec<Token>, i: usize) -> (r: (
    Result<Vec<JsonExpression>, JsonError>,
    usize,
))
    ensures
        match sp_parse_elems(toks_view(tokens@), i as int) {
            Ok((es, j)) => r.0 matches Ok(v) && view_elems(v@) == es && r.1 == j && i < j
                <= tokens@.len(),
            Err(e) => r.0 == Err::<Vec<JsonExpression>, JsonError>(e) && r.1 == i,
        },
    decreases tokens@.len() - i, 3int,
{
    let ghost ts = toks_view(tokens@);
    let (er, j) = expr_at(tokens, i);
    let first = match er {
        Ok(e) => e,
        Err(e) => {
            return (Err(e), i);
        },
    };
    if j >= tokens.len() {
        return (Err(JsonError::UnexpectedEndOfInput), i);
    }
    assert(ts[j as int] == tokens@[j as int]@);
    let comma = match &tokens[j] {
        Token::Comma => true,
        _ => false,
    };
    if comma {
        let (rr, k) = elems_at(tokens, j + 1);
        match rr {
            Ok(rest) => {
                let ghost rest0 = rest@;
                let mut out: Vec<JsonExpression> = Vec::new();
                out.push(first);
                let mut rest = rest;
                out.append(&mut rest);
                proof {
                    assert(ts.len() == tokens@.len());
                    assert(ts[j as int] == SpecToken::Comma);
                    let sr = sp_parse_elems(ts, i as int);
                    let es = sr->Ok_0.0;
                    assert(es == seq![first@] + view_elems(rest0));
                    lemma_view_elems(out@);
                    lemma_view_elems(rest0);
                    assert(out@ =~= seq![first].add(rest0));
                    assert(view_elems(out@) =~= es);
                }
                (Ok(out), k)
            },
            Err(e) => (Err(e), i),
        }
    } else {
        let mut out: Vec<JsonExpression> = Vec::new();
        out.push(first);
        proof {
            assert(ts.len() == tokens@.len());
            assert(ts[j as int] != SpecToken::Comma);
            let sr = sp_parse_elems(ts, i as int);
            assert(sr == Ok::<(Seq<SpecJson>, int), JsonError>((seq![first@], j as int)));
            lemma_view_elems(out@);
            assert(out@ =~= seq![first]);
            assert(view_elems(out@) =~= seq![first@]);
        }
        (Ok(out), j)
    }
}

/// Parses an object of `tokens` starting at `i`.
fn object_at(tokens: &Vec<Token>, i: usize) -> (r: (Result<JsonExpression, JsonError>, usize))
    ensures
        match sp_parse_object(toks_view(tokens@), i as int) {
            Ok((v, j)) => r.0 matches Ok(e) && e@ == v && r.1 == j && i < j <= tokens@.len(),
            Err(e) => r.0 == Err::<JsonExpression, JsonError>(e) && r.1 == i,
        },
    decreases tokens@.len() - i, 1int,
{
    let ghost ts = toks_view(tokens@);
    if i >= tokens.len() {
        return (Err(JsonError::UnexpectedEndOfInput), i);
    }
    assert(ts[i as int] == tokens@[i as int]@);
    match &tokens[i] {
        Token::LeftBrace => {},
        _ => {
            return (Err(JsonError::SyntaxError), i);
        },
    }
    if i + 1 >= tokens.len() {
        return (Err(JsonError::UnexpectedEndOfInput), i);
    }
    assert(ts[i + 1] == tokens@[i + 1]@);
    let empty = match &tokens[i + 1] {
        Token::RightBrace => true,
        _ => false,
    };
    if empty {
        let ms: Vec<(String, JsonExpression)> = Vec::new();
        proof {
            assert(view_members(ms@) =~= Seq::<(Seq<char>, SpecJson)>::empty());
        }
        return (Ok(JsonExpression::Object(ms)), i + 2);
    }
    let (mr, j) = members_at(tokens, i + 1);
    match mr {
        Ok(ms) => {
            if j >= tokens.len() {
                return (Err(JsonError::UnexpectedEndOfInput), i);
            }
            assert(ts[j as int] == tokens@[j as int]@);
            match &tokens[j] {
                Token::RightBrace => (Ok(JsonExpression::Object(ms)), j + 1),
                _ => (Err(JsonError::SyntaxError), i),
            }
        },
        Err(e) => (Err(e), i),
    }
}

/// Parses comma-separated members of `tokens` starting at `i`.
fn members_at(tokens: &Vec<Token>, i: usize) -> (r: (
    Result<Vec<(String, JsonExpression)>, JsonError>,
    usize,
))
    ensures
        match sp_parse_members(toks_view(tokens@), i as int) {
            Ok((ms, j)) => r.0 matches Ok(v) && view_members(v@) == ms && r.1 == j && i < j
                <= tokens@.len(),
            Err(e) => r.0 == Err::<Vec<(String, JsonExpression)>, JsonError>(e) && r.1 == i,
        },
    decreases tokens@.len() - i, 3int,
{
    let ghost ts = toks_view(tokens@);
    if i >= tokens.len() {
        return (Err(JsonError::UnexpectedEndOfInput), i);
    }
    assert(ts[i as int] == tokens@[i as int]@);
    let key = match &tokens[i] {
        Token::StringLiteral(k) => k.clone(),
        _ => {
            return (Err(JsonError::SyntaxError), i);
        },
    };
    if i + 1 >= tokens.len() {
        return (Err(JsonError::UnexpectedEndOfInput), i);
    }
    assert(ts[i + 1] == tokens@[i + 1]@);
    let colon = match &tokens[i + 1] {
        Token::Colon => true,
        _ => false,
    };
    if !colon {
        return (Err(JsonError::SyntaxError), i);
    }
    let (er, j) = expr_at(tokens, i + 2);
    let value = match er {
        Ok(e) => e,
        Err(e) => {
            return (Err(e), i);
        },
    };
    if j >= tokens.len() {
        return (Err(JsonError::UnexpectedEndOfInput), i);
    }
    assert(ts[j as int] == tokens@[j as int]@);
    let comma = match &tokens[j] {
        Token::Comma => true,
        _ => false,
    };
    if comma {
        let (rr, k) = members_at(tokens, j + 1);
        match rr {
            Ok(rest) => {
                let ghost rest0 = rest@;
                let mut out: Vec<(String, JsonExpression)> = Vec::new();
                out.push((key, value));
                let mut rest = rest;
                out.append(&mut rest);
                proof {
                    assert(ts.len() == tokens@.len());
                    assert(ts[j as int] == SpecToken::Comma);
                    let sr = sp_parse_members(ts, i as int);
                    let ms = sr->Ok_0.0;
                    assert(ms == seq![(key@, value@)] + view_members(rest0));
                    lemma_view_members(out@);
                    lemma_view_members(rest0);
                    assert(out@ =~= seq![(key, value)].add(rest0));
                    assert(view_members(out@) =~= ms);
                }
                (Ok(out), k)
            },
            Err(e) => (Err(e), i),
        }
    } else {
        let mut out: Vec<(String, JsonExpression)> = Vec::new();
        out.push((key, value));
        proof {
            assert(ts.len() == tokens@.len());
            assert(ts[j as int] != SpecToken::Comma);
            let sr = sp_parse_members(ts, i as int);
            assert(sr == Ok::<(Seq<(Seq<char>, SpecJson)>, int), JsonError>((
                seq![(key@, value@)],
                j as int,
            )));
            lemma_view_members(out@);
            assert(out@ =~= seq![(key, value)]);
            assert(view_members(out@) =~= seq![(key@, value@)]);
        }
        (Ok(out), j)
    }
}

/// The parser: it owns the token sequence and a scan index, and never looks
/// behind the index.
pub struct Parser {
    pub tokens: Vec<Token>,
    pub current: usize,
}

impl Parser {
    /// A parser over `tokens`, starting at the first one.
    pub fn new(tokens: Vec<Token>) -> (r: Parser)
        ensures
            r.tokens@ == tokens@,
            r.current == 0,
    {
        Parser { tokens, current: 0 }
    }

    /// Parses a whole document at the scan index: the root must be an object
    /// or an array. On success the index rests after the document; on error
    /// it is unchanged.
    pub fn parse(&mut self) -> (r: Result<JsonExpression, JsonError>)
        ensures
            final(self).tokens == old(self).tokens,
            match sp_parse(toks_view(old(self).tokens@), old(self).current as int) {
                Ok(v) => r matches Ok(e) && e@ == v && old(self).current <= final(self).current
                    <= final(self).tokens@.len(),
                Err(e) => r == Err::<JsonExpression, JsonError>(e) && final(self).current == old(
                    self,
                ).current,
            },
    {
        let ghost ts = toks_view(self.tokens@);
        if self.current >= self.tokens.len() {
            return Err(JsonError::UnexpectedEndOfInput);
        }
        assert(ts[self.current as int] == self.tokens@[self.current as int]@);
        let kind = match &self.tokens[self.current] {
            Token::LeftBrace => 0usize,
            Token::LeftBracket => 1usize,
            _ => 2usize,
        };
        if kind == 0 {
            let (r, j) = object_at(&self.tokens, self.current);
            match r {
                Ok(e) => {
                    self.current = j;
                    Ok(e)
                },
                Err(e) => Err(e),
            }
        } else if kind == 1 {
            let (r, j) = array_at(&self.tokens, self.current);
            match r {
                Ok(e) => {
                    self.current = j;
                    Ok(e)
                },
                Err(e) => Err(e),
            }
        } else {
            Err(JsonError::SyntaxError)
        }
    }

    /// Parses one expression at the scan index.
    pub fn parse_expression(&mut self) -> (r: Result<JsonExpression, JsonError>)
        ensures
            final(self).tokens == old(self).tokens,
            match sp_parse_expr(toks_view(old(self).tokens@), old(self).current as int) {
                Ok((v, j)) => r matches Ok(e) && e@ == v && final(self).current == j,
                Err(e) => r == Err::<JsonExpression, JsonError>(e) && final(self).current == old(
                    self,
                ).current,
            },
    {
        let (r, j) = expr_at(&self.tokens, self.current);
        match r {
            Ok(e) => {
                self.current = j;
                Ok(e)
            },
            Err(e) => Err(e),
        }
    }

    /// Parses an array at the scan index.
    pub fn parse_array(&mut self) -> (r: Result<JsonExpression, JsonError>)
        ensures
            final(self).tokens == old(self).tokens,
            match sp_parse_array(toks_view(old(self).tokens@), old(self).current as int) {
                Ok((v, j)) => r matches Ok(e) && e@ == v && final(self).current == j,
                Err(e) => r == Err::<JsonExpression, JsonError>(e) && final(self).current == old(
                    self,
                ).current,
            },
    {
        let (r, j) = array_at(&self.tokens, self.current);
        match r {
            Ok(e) => {
                self.current = j;
                Ok(e)
            },
            Err(e) => Err(e),
        }
    }

    /// Parses an object at the scan index.
    pub fn parse_object(&mut self) -> (r: Result<JsonExpression, JsonError>)
        ensures
            final(self).tokens == old(self).tokens,
            match sp_parse_object(toks_view(old(self).tokens@), old(self).current as int) {
                Ok((v, j)) => r matches Ok(e) && e@ == v && final(self).current == j,
                Err(e) => r == Err::<JsonExpression, JsonError>(e) && final(self).current == old(
                    self,
                ).current,
            },
    {
        let (r, j) = object_at(&self.tokens, self.current);
        match r {
            Ok(e) => {
                self.current = j;
                Ok(e)
            },
            Err(e) => Err(e),
        }
    }
}

} // verus!
