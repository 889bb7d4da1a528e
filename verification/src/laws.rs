//! The laws that tie the pipeline together: what the lexer guarantees of
//! every token it yields, what the parser guarantees of every tree it builds,
//! and the round-trip law: parsing the serialization of a parsed document
//! gives the same tree back.

use vstd::prelude::*;
use crate::ast::{JsonError, SpecToken, SpecJson};
use crate::number::is_float_text;
use crate::lexer::{is_ws, spec_is_delim, scan_string, scan_bareword, spec_lex, lex_push, lex_concat,
    lemma_scan_bareword_exact, lemma_scan_string_bounds, lemma_scan_bareword_nonneg,
    lemma_scan_bareword_max};
use crate::parser::{sp_parse_expr, sp_parse_array, sp_parse_object, sp_parse_elems,
    sp_parse_members, sp_parse};
use crate::ser::{spec_ser, spec_ser_elems, spec_ser_member, spec_ser_members};
use crate::spec_json;

verus! {

/// A string body the lexer can have produced: escape-aware scanning of it
/// ends exactly at its end, having met no unescaped quote.
pub open spec fn body_ok(b: Seq<char>) -> bool
    decreases b.len(),
{
    if b.len() == 0 {
        true
    } else if b[0] == '\\' {
        b.len() >= 2 && body_ok(b.skip(2))
    } else {
        b[0] != '"' && body_ok(b.skip(1))
    }
}

/// A number literal the lexer can have produced: a non-empty bareword (no
/// delimiter characters, not opened by a quote) whose text parses as a
/// 64-bit float.
pub open spec fn wf_number(w: Seq<char>) -> bool {
    &&& w.len() > 0
    &&& w[0] != '"'
    &&& forall|k: int| 0 <= k < w.len() ==> !spec_is_delim(w[k])
    &&& is_float_text(w)
}

/// A token the lexer can have produced.
pub open spec fn tok_wf(t: SpecToken) -> bool {
    match t {
        SpecToken::NumberLiteral(w) => wf_number(w),
        SpecToken::StringLiteral(b) => body_ok(b),
        _ => true,
    }
}

/// Every token of a sequence is one the lexer can have produced.
pub open spec fn toks_wf(ts: Seq<SpecToken>) -> bool {
    forall|k: int| 0 <= k < ts.len() ==> tok_wf(#[trigger] ts[k])
}

/// A tree the parser can have built: every number literal in it is a valid
/// bareword, and every string body and key is one the lexer accepts.
pub open spec fn wf(v: SpecJson) -> bool
    decreases v,
{
    match v {
        SpecJson::Number(w) => wf_number(w),
        SpecJson::String(b) => body_ok(b),
        SpecJson::Array(es) => forall|k: int| 0 <= k < es.len() ==> wf(#[trigger] es[k]),
        SpecJson::Object(ms) => forall|k: int|
            0 <= k < ms.len() ==> body_ok((#[trigger] ms[k]).0) && wf(ms[k].1),
    }
}

/// The characters a bareword scan takes are all non-delimiters.
pub proof fn lemma_scan_bareword_chars(s: Seq<char>)
    ensures
        forall|k: int| 0 <= k < scan_bareword(s) ==> !spec_is_delim(s[k]),
    decreases s.len(),
{
    if s.len() > 0 && !spec_is_delim(s[0]) {
        lemma_scan_bareword_chars(s.skip(1));
        lemma_scan_bareword_nonneg(s.skip(1));
        lemma_scan_bareword_max(s.skip(1));
        assert forall|k: int| 0 <= k < scan_bareword(s) implies !spec_is_delim(s[k]) by {
            if k > 0 {
                assert(!spec_is_delim(s.skip(1)[k - 1]));
                assert(s.skip(1)[k - 1] == s[k]);
            }
        }
    }
}

/// The body a string scan takes is a body the lexer can have produced.
pub proof fn lemma_scan_string_body_ok(s: Seq<char>)
    ensures
        scan_string(s) matches Some(n) ==> body_ok(s.subrange(0, n)),
    decreases s.len(),
{
    if s.len() == 0 {
    } else if s[0] == '"' {
        assert(s.subrange(0, 0).len() == 0);
    } else if s[0] == '\\' {
        if s.len() > 1 {
            lemma_scan_string_body_ok(s.skip(2));
            if let Some(n) = scan_string(s.skip(2)) {
                lemma_scan_string_bounds(s.skip(2));
                let b = s.subrange(0, n + 2);
                assert(b[0] == '\\');
                assert(b.skip(2) =~= s.skip(2).subrange(0, n));
            }
        }
    } else {
        lemma_scan_string_body_ok(s.skip(1));
        if let Some(n) = scan_string(s.skip(1)) {
            lemma_scan_string_bounds(s.skip(1));
            let b = s.subrange(0, n + 1);
            assert(b[0] == s[0]);
            assert(b.skip(1) =~= s.skip(1).subrange(0, n));
        }
    }
}

/// Every token the lexer yields is well formed.
pub proof fn lemma_lex_tokens_wf(s: Seq<char>)
    ensures
        spec_lex(s) matches Ok(ts) ==> toks_wf(ts),
    decreases s.len(),
{
    if s.len() == 0 {
    } else if is_ws(s[0]) {
        lemma_lex_tokens_wf(s.skip(1));
    } else if s[0] == '{' || s[0] == '}' || s[0] == '[' || s[0] == ']' || s[0] == ','
        || s[0] == ':' {
        lemma_lex_tokens_wf(s.skip(1));
        if let Ok(rest) = spec_lex(s.skip(1)) {
            lemma_toks_wf_cons(head_token(s[0]), rest);
        }
    } else if s[0] == '"' {
        lemma_scan_string_bounds(s.skip(1));
        lemma_scan_string_body_ok(s.skip(1));
        if let Some(n) = scan_string(s.skip(1)) {
            lemma_lex_tokens_wf(s.skip(n + 2));
            assert(s.subrange(1, n + 1) =~= s.skip(1).subrange(0, n));
            if let Ok(rest) = spec_lex(s.skip(n + 2)) {
                lemma_toks_wf_cons(SpecToken::StringLiteral(s.subrange(1, n + 1)), rest);
            }
        }
    } else {
        let m = scan_bareword(s);
        lemma_scan_bareword_nonneg(s);
        lemma_scan_bareword_max(s);
        lemma_scan_bareword_chars(s);
        let w = s.subrange(0, m);
        if is_float_text(w) {
            lemma_lex_tokens_wf(s.skip(m));
            assert(!spec_is_delim(s[0]));
            assert(m >= 1);
            assert(w[0] == s[0]);
            assert(forall|k: int| 0 <= k < w.len() ==> !spec_is_delim(w[k]));
            assert(wf_number(w));
            if let Ok(rest) = spec_lex(s.skip(m)) {
                lemma_toks_wf_cons(SpecToken::NumberLiteral(w), rest);
            }
        }
    }
}

/// The structural token a single character denotes.
pub open spec fn head_token(c: char) -> SpecToken {
    if c == '{' {
        SpecToken::LeftBrace
    } else if c == '}' {
        SpecToken::RightBrace
    } else if c == '[' {
        SpecToken::LeftBracket
    } else if c == ']' {
        SpecToken::RightBracket
    } else if c == ',' {
        SpecToken::Comma
    } else {
        SpecToken::Colon
    }
}

/// Putting a well-formed token in front keeps a sequence well formed.
proof fn lemma_toks_wf_cons(t: SpecToken, ts: Seq<SpecToken>)
    requires
        tok_wf(t),
        toks_wf(ts),
    ensures
        toks_wf(seq![t] + ts),
{
    let full = seq![t] + ts;
    assert forall|k: int| 0 <= k < full.len() implies tok_wf(#[trigger] full[k]) by {
        if k > 0 {
            assert(full[k] == ts[k - 1]);
        }
    }
}

/// Every tree the expression parser builds from well-formed tokens is well
/// formed, and it consumes at least one token.
pub proof fn lemma_parse_expr_wf(ts: Seq<SpecToken>, i: int)
    requires
        toks_wf(ts),
    ensures
        sp_parse_expr(ts, i) matches Ok((v, j)) ==> wf(v) && i < j <= ts.len(),
    decreases ts.len() - i, 2int,
{
    if 0 <= i < ts.len() {
        match ts[i] {
            SpecToken::LeftBracket => lemma_parse_array_wf(ts, i),
            SpecToken::LeftBrace => lemma_parse_object_wf(ts, i),
            _ => {},
        }
    }
}

/// Every tree the array parser builds from well-formed tokens is well formed.
pub proof fn lemma_parse_array_wf(ts: Seq<SpecToken>, i: int)
    requires
        toks_wf(ts),
    ensures
        sp_parse_array(ts, i) matches Ok((v, j)) ==> wf(v) && i < j <= ts.len(),
    decreases ts.len() - i, 1int,
{
    if 0 <= i < ts.len() && ts[i] == SpecToken::LeftBracket && i + 1 < ts.len() && ts[i + 1]
        != SpecToken::RightBracket {
        lemma_parse_elems_wf(ts, i + 1);
    }
}

/// Every element list the parser builds from well-formed tokens holds only
/// well-formed trees.
pub proof fn lemma_parse_elems_wf(ts: Seq<SpecToken>, i: int)
    requires
        toks_wf(ts),
    ensures
        sp_parse_elems(ts, i) matches Ok((es, j)) ==> (forall|k: int|
            0 <= k < es.len() ==> wf(#[trigger] es[k])) && i < j <= ts.len(),
    decreases ts.len() - i, 3int,
{
    lemma_parse_expr_wf(ts, i);
    if let Ok((v, j)) = sp_parse_expr(ts, i) {
        if i < j < ts.len() && ts[j] == SpecToken::Comma {
            lemma_parse_elems_wf(ts, j + 1);
            if let Ok((es, _k)) = sp_parse_elems(ts, j + 1) {
                let full = seq![v] + es;
                assert forall|k: int| 0 <= k < full.len() implies wf(#[trigger] full[k]) by {
                    if k > 0 {
                        assert(full[k] == es[k - 1]);
                    }
                }
            }
        } else {
            if let Ok((es, _j2)) = sp_parse_elems(ts, i) {
                assert(es == seq![v]);
                assert(es[0] == v);
            }
        }
    }
}

/// Every tree the object parser builds from well-formed tokens is well
/// formed.
pub proof fn lemma_parse_object_wf(ts: Seq<SpecToken>, i: int)
    requires
        toks_wf(ts),
    ensures
        sp_parse_object(ts, i) matches Ok((v, j)) ==> wf(v) && i < j <= ts.len(),
    decreases ts.len() - i, 1int,
{
    if 0 <= i < ts.len() && ts[i] == SpecToken::LeftBrace && i + 1 < ts.len() && ts[i + 1]
        != SpecToken::RightBrace {
        lemma_parse_members_wf(ts, i + 1);
    }
}

/// Every member list the parser builds from well-formed tokens holds only
/// well-formed keys and trees.
pub proof fn lemma_parse_members_wf(ts: Seq<SpecToken>, i: int)
    requires
        toks_wf(ts),
    ensures
        sp_parse_members(ts, i) matches Ok((ms, j)) ==> (forall|k: int|
            0 <= k < ms.len() ==> body_ok((#[trigger] ms[k]).0) && wf(ms[k].1)) && i < j
            <= ts.len(),
    decreases ts.len() - i, 3int,
{
    if 0 <= i < ts.len() {
        if let SpecToken::StringLiteral(key) = ts[i] {
            assert(tok_wf(ts[i]));
            assert(body_ok(key));
            if i + 1 < ts.len() && ts[i + 1] == SpecToken::Colon {
                lemma_parse_expr_wf(ts, i + 2);
                if let Ok((v, j)) = sp_parse_expr(ts, i + 2) {
                    if i + 2 < j < ts.len() && ts[j] == SpecToken::Comma {
                        lemma_parse_members_wf(ts, j + 1);
                        if let Ok((ms, _k)) = sp_parse_members(ts, j + 1) {
                            let full = seq![(key, v)] + ms;
                            assert forall|k: int| 0 <= k < full.len() implies body_ok(
                                (#[trigger] full[k]).0,
                            ) && wf(full[k].1) by {
                                if k > 0 {
                                    assert(full[k] == ms[k - 1]);
                                }
                            }
                        }
                    } else {
                        if let Ok((ms, _j2)) = sp_parse_members(ts, i) {
                            assert(ms == seq![(key, v)]);
                            assert(ms[0] == (key, v));
                        }
                    }
                }
            }
        }
    }
}

/// The token sequence of a value: what lexing its text yields.
pub open spec fn toks(v: SpecJson) -> Seq<SpecToken>
    decreases v,
{
    match v {
        SpecJson::Number(w) => seq![SpecToken::NumberLiteral(w)],
        SpecJson::String(b) => seq![SpecToken::StringLiteral(b)],
        SpecJson::Array(es) => seq![SpecToken::LeftBracket] + toks_elems(es)
            + seq![SpecToken::RightBracket],
        SpecJson::Object(ms) => seq![SpecToken::LeftBrace] + toks_members(ms)
            + seq![SpecToken::RightBrace],
    }
}

/// The token sequence of an array's elements.
pub open spec fn toks_elems(es: Seq<SpecJson>) -> Seq<SpecToken>
    decreases es,
{
    if es.len() == 0 {
        Seq::empty()
    } else if es.len() == 1 {
        toks(es[0])
    } else {
        toks(es[0]) + seq![SpecToken::Comma] + toks_elems(es.subrange(1, es.len() as int))
    }
}

/// The token sequence of one object member.
pub open spec fn toks_member(m: (Seq<char>, SpecJson)) -> Seq<SpecToken>
    decreases m,
{
    seq![SpecToken::StringLiteral(m.0), SpecToken::Colon] + toks(m.1)
}

/// The token sequence of an object's members.
pub open spec fn toks_members(ms: Seq<(Seq<char>, SpecJson)>) -> Seq<SpecToken>
    decreases ms,
{
    if ms.len() == 0 {
        Seq::empty()
    } else if ms.len() == 1 {
        toks_member(ms[0])
    } else {
        toks_member(ms[0]) + seq![SpecToken::Comma] + toks_members(ms.subrange(1, ms.len() as int))
    }
}

/// Scanning a well-formed body finds exactly the quote written after it.
pub proof fn lemma_scan_string_of_body(b: Seq<char>, rest: Seq<char>)
    requires
        body_ok(b),
    ensures
        scan_string(b + seq!['"'] + rest) == Some(b.len() as int),
    decreases b.len(),
{
    let s = b + seq!['"'] + rest;
    if b.len() == 0 {
        assert(s[0] == '"');
    } else if b[0] == '\\' {
        lemma_scan_string_of_body(b.skip(2), rest);
        assert(s[0] == '\\');
        assert(s.len() > 1);
        assert(s.skip(2) =~= b.skip(2) + seq!['"'] + rest);
    } else {
        lemma_scan_string_of_body(b.skip(1), rest);
        assert(s[0] == b[0]);
        assert(s[0] != '"');
        assert(s.skip(1) =~= b.skip(1) + seq!['"'] + rest);
    }
}

/// Lexing a value's text yields its tokens, then whatever the rest yields.
/// The rest must open with a delimiter (or end), as it does everywhere the
/// serializer writes a value.
#[verifier::rlimit(60)]
pub proof fn lemma_lex_ser(v: SpecJson, rest: Seq<char>)
    requires
        wf(v),
        rest.len() == 0 || spec_is_delim(rest[0]),
    ensures
        spec_lex(spec_ser(v) + rest) == lex_concat(toks(v), spec_lex(rest)),
    decreases v,
{
    let full = spec_ser(v) + rest;
    match v {
        SpecJson::Number(w) => {
            assert(full =~= w + rest);
            assert(full[0] == w[0]);
            assert(!spec_is_delim(w[0]));
            assert forall|k: int| 0 <= k < w.len() implies !spec_is_delim(full[k]) by {
                assert(full[k] == w[k]);
            }
            lemma_scan_bareword_exact(full, w.len() as int);
            assert(full.subrange(0, w.len() as int) =~= w);
            assert(full.skip(w.len() as int) =~= rest);
            assert(spec_lex(full) == lex_push(SpecToken::NumberLiteral(w), spec_lex(rest)));
            assert(lex_push(SpecToken::NumberLiteral(w), spec_lex(rest)) == lex_concat(
                toks(v),
                spec_lex(rest),
            ));
        },
        SpecJson::String(b) => {
            assert(full[0] == '"');
            assert(full.skip(1) =~= b + seq!['"'] + rest);
            lemma_scan_string_of_body(b, rest);
            assert(full.subrange(1, b.len() as int + 1) =~= b);
            assert(full.skip(b.len() as int + 2) =~= rest);
            assert(spec_lex(full) == lex_push(SpecToken::StringLiteral(b), spec_lex(rest)));
            assert(lex_push(SpecToken::StringLiteral(b), spec_lex(rest)) == lex_concat(
                toks(v),
                spec_lex(rest),
            ));
        },
        SpecJson::Array(es) => {
            let rest1 = seq![']'] + rest;
            assert(full[0] == '[');
            assert(rest1[0] == ']');
            assert(rest1.skip(1) =~= rest);
            assert(spec_lex(rest1) == lex_push(SpecToken::RightBracket, spec_lex(rest)));
            if es.len() == 0 {
                assert(full.skip(1) =~= rest1);
                assert(spec_lex(full) == lex_push(
                    SpecToken::LeftBracket,
                    lex_push(SpecToken::RightBracket, spec_lex(rest)),
                ));
                assert(toks_elems(es) =~= Seq::<SpecToken>::empty());
                match spec_lex(rest) {
                    Ok(ts) => {
                        assert(seq![SpecToken::LeftBracket] + (seq![SpecToken::RightBracket] + ts)
                            =~= (seq![SpecToken::LeftBracket] + toks_elems(es)
                            + seq![SpecToken::RightBracket]) + ts);
                    },
                    Err(_) => {},
                }
            } else {
                assert(full.skip(1) =~= spec_ser_elems(es) + rest1);
                lemma_lex_ser_elems(es, rest1);
                assert(spec_lex(full) == lex_push(
                    SpecToken::LeftBracket,
                    lex_concat(toks_elems(es), lex_push(SpecToken::RightBracket, spec_lex(rest))),
                ));
                match spec_lex(rest) {
                    Ok(ts) => {
                        assert(seq![SpecToken::LeftBracket] + (toks_elems(es)
                            + (seq![SpecToken::RightBracket] + ts)) =~= (
                        seq![SpecToken::LeftBracket] + toks_elems(es)
                            + seq![SpecToken::RightBracket]) + ts);
                    },
                    Err(_) => {},
                }
            }
        },
        SpecJson::Object(ms) => {
            let rest1 = seq!['}'] + rest;
            assert(full[0] == '{');
            assert(rest1[0] == '}');
            assert(rest1.skip(1) =~= rest);
            assert(spec_lex(rest1) == lex_push(SpecToken::RightBrace, spec_lex(rest)));
            if ms.len() == 0 {
                assert(full.skip(1) =~= rest1);
                assert(spec_lex(full) == lex_push(
                    SpecToken::LeftBrace,
                    lex_push(SpecToken::RightBrace, spec_lex(rest)),
                ));
                assert(toks_members(ms) =~= Seq::<SpecToken>::empty());
                match spec_lex(rest) {
                    Ok(ts) => {
                        assert(seq![SpecToken::LeftBrace] + (seq![SpecToken::RightBrace] + ts)
                            =~= (seq![SpecToken::LeftBrace] + toks_members(ms)
                            + seq![SpecToken::RightBrace]) + ts);
                    },
                    Err(_) => {},
                }
            } else {
                assert(full.skip(1) =~= spec_ser_members(ms) + rest1);
                lemma_lex_ser_members(ms, rest1);
                assert(spec_lex(full) == lex_push(
                    SpecToken::LeftBrace,
                    lex_concat(toks_members(ms), lex_push(SpecToken::RightBrace, spec_lex(rest))),
                ));
                match spec_lex(rest) {
                    Ok(ts) => {
                        assert(seq![SpecToken::LeftBrace] + (toks_members(ms)
                            + (seq![SpecToken::RightBrace] + ts)) =~= (seq![SpecToken::LeftBrace]
                            + toks_members(ms) + seq![SpecToken::RightBrace]) + ts);
                    },
                    Err(_) => {},
                }
            }
        },
    }
}

/// Lexing an element list's text yields its tokens, then the rest's.
#[verifier::rlimit(60)]
pub proof fn lemma_lex_ser_elems(es: Seq<SpecJson>, rest: Seq<char>)
    requires
        es.len() >= 1,
        forall|k: int| 0 <= k < es.len() ==> wf(#[trigger] es[k]),
        rest.len() >= 1 && spec_is_delim(rest[0]),
    ensures
        spec_lex(spec_ser_elems(es) + rest) == lex_concat(toks_elems(es), spec_lex(rest)),
    decreases es,
{
    if es.len() == 1 {
        assert(wf(es[0]));
        lemma_lex_ser(es[0], rest);
        assert(spec_ser_elems(es) == spec_ser(es[0]));
        assert(toks_elems(es) == toks(es[0]));
    } else {
        let tail = es.subrange(1, es.len() as int);
        let rest2 = seq![','] + (spec_ser_elems(tail) + rest);
        assert(wf(es[0]));
        lemma_lex_ser(es[0], rest2);
        assert forall|k: int| 0 <= k < tail.len() implies wf(#[trigger] tail[k]) by {
            assert(tail[k] == es[k + 1]);
        }
        lemma_lex_ser_elems(tail, rest);
        assert(spec_ser_elems(es) + rest =~= spec_ser(es[0]) + rest2);
        assert(rest2[0] == ',');
        assert(rest2.skip(1) =~= spec_ser_elems(tail) + rest);
        assert(spec_lex(rest2) == lex_push(
            SpecToken::Comma,
            lex_concat(toks_elems(tail), spec_lex(rest)),
        ));
        match spec_lex(rest) {
            Ok(ts) => {
                assert(toks(es[0]) + (seq![SpecToken::Comma] + (toks_elems(tail) + ts)) =~= (toks(
                    es[0],
                ) + seq![SpecToken::Comma] + toks_elems(tail)) + ts);
            },
            Err(_) => {},
        }
    }
}

/// Lexing a member list's text yields its tokens, then the rest's.
#[verifier::rlimit(60)]
pub proof fn lemma_lex_ser_members(ms: Seq<(Seq<char>, SpecJson)>, rest: Seq<char>)
    requires
        ms.len() >= 1,
        forall|k: int| 0 <= k < ms.len() ==> body_ok((#[trigger] ms[k]).0) && wf(ms[k].1),
        rest.len() >= 1 && spec_is_delim(rest[0]),
    ensures
        spec_lex(spec_ser_members(ms) + rest) == lex_concat(toks_members(ms), spec_lex(rest)),
    decreases ms,
{
    let m = ms[0];
    if ms.len() == 1 {
        lemma_lex_ser_member(m, rest);
        assert(spec_ser_members(ms) == spec_ser_member(m));
        assert(toks_members(ms) == toks_member(m));
    } else {
        let tail = ms.subrange(1, ms.len() as int);
        let rest2 = seq![','] + (spec_ser_members(tail) + rest);
        lemma_lex_ser_member(m, rest2);
        assert forall|k: int| 0 <= k < tail.len() implies body_ok((#[trigger] tail[k]).0) && wf(
            tail[k].1,
        ) by {
            assert(tail[k] == ms[k + 1]);
        }
        lemma_lex_ser_members(tail, rest);
        assert(spec_ser_members(ms) + rest =~= spec_ser_member(m) + rest2);
        assert(rest2[0] == ',');
        assert(rest2.skip(1) =~= spec_ser_members(tail) + rest);
        assert(spec_lex(rest2) == lex_push(
            SpecToken::Comma,
            lex_concat(toks_members(tail), spec_lex(rest)),
        ));
        match spec_lex(rest) {
            Ok(ts) => {
                assert(toks_member(m) + (seq![SpecToken::Comma] + (toks_members(tail) + ts)) =~= (
                toks_member(m) + seq![SpecToken::Comma] + toks_members(tail)) + ts);
            },
            Err(_) => {},
        }
    }
}

/// Lexing one member's text yields its key, a colon, and its value's tokens.
pub proof fn lemma_lex_ser_member(m: (Seq<char>, SpecJson), rest: Seq<char>)
    requires
        body_ok(m.0),
        wf(m.1),
        rest.len() >= 1 && spec_is_delim(rest[0]),
    ensures
        spec_lex(spec_ser_member(m) + rest) == lex_concat(toks_member(m), spec_lex(rest)),
    decreases m,
{
    let full = spec_ser_member(m) + rest;
    let after_key = seq![':'] + (spec_ser(m.1) + rest);
    assert(full[0] == '"');
    assert(full.skip(1) =~= m.0 + seq!['"'] + after_key);
    lemma_scan_string_of_body(m.0, after_key);
    assert(full.subrange(1, m.0.len() as int + 1) =~= m.0);
    assert(full.skip(m.0.len() as int + 2) =~= after_key);
    assert(after_key[0] == ':');
    assert(after_key.skip(1) =~= spec_ser(m.1) + rest);
    lemma_lex_ser(m.1, rest);
    assert(scan_string(full.skip(1)) == Some(m.0.len() as int));
    assert(spec_lex(after_key) == lex_push(SpecToken::Colon, spec_lex(spec_ser(m.1) + rest)));
    assert(spec_lex(full) == lex_push(SpecToken::StringLiteral(m.0), spec_lex(after_key)));
    assert(spec_lex(full) == lex_push(
        SpecToken::StringLiteral(m.0),
        lex_push(SpecToken::Colon, lex_concat(toks(m.1), spec_lex(rest))),
    ));
    match spec_lex(rest) {
        Ok(ts) => {
            assert(seq![SpecToken::StringLiteral(m.0)] + (seq![SpecToken::Colon] + (toks(m.1) + ts))
                =~= (seq![SpecToken::StringLiteral(m.0), SpecToken::Colon] + toks(m.1)) + ts);
        },
        Err(_) => {},
    }
}

/// A token that can open an expression.
pub open spec fn starts_value(t: SpecToken) -> bool {
    match t {
        SpecToken::LeftBracket => true,
        SpecToken::LeftBrace => true,
        SpecToken::NumberLiteral(_) => true,
        SpecToken::StringLiteral(_) => true,
        _ => false,
    }
}

/// A value's token sequence is non-empty and opens with a value token.
pub proof fn lemma_toks_shape(v: SpecJson)
    ensures
        toks(v).len() >= 1,
        starts_value(toks(v)[0]),
{
    match v {
        SpecJson::Number(_) => {},
        SpecJson::String(_) => {},
        SpecJson::Array(es) => {
            assert(toks(v)[0] == SpecToken::LeftBracket);
        },
        SpecJson::Object(ms) => {
            assert(toks(v)[0] == SpecToken::LeftBrace);
        },
    }
}

/// An element list's token sequence opens with its first element's opener.
pub proof fn lemma_toks_elems_head(es: Seq<SpecJson>)
    requires
        es.len() >= 1,
    ensures
        toks_elems(es).len() >= toks(es[0]).len(),
        toks_elems(es)[0] == toks(es[0])[0],
{
    lemma_toks_shape(es[0]);
    if es.len() > 1 {
        assert(toks_elems(es)[0] == toks(es[0])[0]);
    }
}

/// Parsing an expression's tokens in place yields exactly that expression.
pub proof fn lemma_parse_expr_toks(ts: Seq<SpecToken>, i: int, v: SpecJson)
    requires
        0 <= i,
        i + toks(v).len() <= ts.len(),
        ts.subrange(i, i + toks(v).len() as int) == toks(v),
    ensures
        sp_parse_expr(ts, i) == Ok::<(SpecJson, int), JsonError>((v, i + toks(v).len() as int)),
    decreases toks(v).len(), 1int,
{
    lemma_toks_shape(v);
    assert(ts[i] == toks(v)[0]) by {
        assert(ts.subrange(i, i + toks(v).len() as int)[0] == ts[i]);
    }
    match v {
        SpecJson::Number(w) => {
            assert(toks(v).len() == 1);
        },
        SpecJson::String(b) => {
            assert(toks(v).len() == 1);
        },
        SpecJson::Array(es) => {
            lemma_parse_array_toks(ts, i, es);
        },
        SpecJson::Object(ms) => {
            lemma_parse_object_toks(ts, i, ms);
        },
    }
}

/// Parsing an array's tokens in place yields exactly that array.
#[verifier::rlimit(60)]
pub proof fn lemma_parse_array_toks(ts: Seq<SpecToken>, i: int, es: Seq<SpecJson>)
    requires
        0 <= i,
        i + toks(SpecJson::Array(es)).len() <= ts.len(),
        ts.subrange(i, i + toks(SpecJson::Array(es)).len() as int) == toks(SpecJson::Array(es)),
    ensures
        sp_parse_array(ts, i) == Ok::<(SpecJson, int), JsonError>(
            (SpecJson::Array(es), i + toks(SpecJson::Array(es)).len() as int),
        ),
    decreases toks(SpecJson::Array(es)).len(), 0int,
{
    let t = toks(SpecJson::Array(es));
    let te = toks_elems(es);
    let l = t.len() as int;
    assert(t == seq![SpecToken::LeftBracket] + te + seq![SpecToken::RightBracket]);
    assert(l == te.len() + 2);
    assert forall|k: int| 0 <= k < l implies ts[i + k] == t[k] by {
        assert(ts.subrange(i, i + l)[k] == ts[i + k]);
    }
    assert(t[0] == SpecToken::LeftBracket);
    assert(ts[i + 0] == t[0]);
    assert(ts[i] == SpecToken::LeftBracket);
    if es.len() == 0 {
        assert(te.len() == 0);
        assert(t[1] == SpecToken::RightBracket);
        assert(ts[i + 1] == t[1]);
        assert(ts[i + 1] == SpecToken::RightBracket);
        assert(es =~= Seq::<SpecJson>::empty());
        assert(SpecJson::Array(es) =~= SpecJson::Array(Seq::<SpecJson>::empty()));
    } else {
        lemma_toks_elems_head(es);
        lemma_toks_shape(es[0]);
        assert((seq![SpecToken::LeftBracket] + te)[1] == te[0]);
        assert(t[1] == te[0]);
        assert(ts[i + 1] == te[0]);
        assert(starts_value(te[0]));
        assert(ts[i + 1] != SpecToken::RightBracket);
        assert forall|k: int| 0 <= k < te.len() implies ts.subrange(i + 1, i + 1 + te.len() as int)[k]
            == te[k] by {
            assert(ts.subrange(i + 1, i + 1 + te.len() as int)[k] == ts[i + 1 + k]);
            assert(t[1 + k] == te[k]);
        }
        assert(ts.subrange(i + 1, i + 1 + te.len() as int) =~= te);
        assert(t[l - 1] == SpecToken::RightBracket);
        assert(ts[i + (l - 1)] == t[l - 1]);
        assert(ts[i + l - 1] == SpecToken::RightBracket);
        assert(ts[i + 1 + te.len()] == SpecToken::RightBracket);
        lemma_parse_elems_toks(ts, i + 1, es);
        assert(sp_parse_elems(ts, i + 1) == Ok::<(Seq<SpecJson>, int), JsonError>(
            (es, i + 1 + te.len()),
        ));
    }
}

/// Parsing an element list's tokens in place yields exactly those elements.
/// The token after the list must not be a comma (it is always a closing
/// bracket where the serializer writes one).
#[verifier::rlimit(60)]
pub proof fn lemma_parse_elems_toks(ts: Seq<SpecToken>, i: int, es: Seq<SpecJson>)
    requires
        es.len() >= 1,
        0 <= i,
        i + toks_elems(es).len() < ts.len(),
        ts.subrange(i, i + toks_elems(es).len() as int) == toks_elems(es),
        ts[i + toks_elems(es).len()] != SpecToken::Comma,
    ensures
        sp_parse_elems(ts, i) == Ok::<(Seq<SpecJson>, int), JsonError>(
            (es, i + toks_elems(es).len() as int),
        ),
    decreases toks_elems(es).len(), 2int,
{
    let te = toks_elems(es);
    let t0 = toks(es[0]);
    let l0 = t0.len() as int;
    lemma_toks_shape(es[0]);
    assert forall|k: int| 0 <= k < te.len() implies ts[i + k] == te[k] by {
        assert(ts.subrange(i, i + te.len() as int)[k] == ts[i + k]);
    }
    if es.len() == 1 {
        assert(te == t0);
        assert(ts.subrange(i, i + l0) =~= t0);
        lemma_parse_expr_toks(ts, i, es[0]);
        assert(sp_parse_expr(ts, i) == Ok::<(SpecJson, int), JsonError>((es[0], i + l0)));
        assert(ts[i + l0] != SpecToken::Comma);
        assert(seq![es[0]] =~= es);
    } else {
        let tail = es.subrange(1, es.len() as int);
        let tt = toks_elems(tail);
        assert(te == t0 + seq![SpecToken::Comma] + tt);
        assert forall|k: int| 0 <= k < l0 implies ts.subrange(i, i + l0)[k] == t0[k] by {
            assert(ts.subrange(i, i + l0)[k] == ts[i + k]);
            assert(te[k] == t0[k]);
        }
        assert(ts.subrange(i, i + l0) =~= t0);
        lemma_parse_expr_toks(ts, i, es[0]);
        assert(te[l0] == SpecToken::Comma);
        assert(ts[i + l0] == SpecToken::Comma);
        let i2 = i + l0 + 1;
        assert forall|k: int| 0 <= k < tt.len() implies ts.subrange(i2, i2 + tt.len() as int)[k]
            == tt[k] by {
            assert(ts.subrange(i2, i2 + tt.len() as int)[k] == ts[i2 + k]);
            assert(te[l0 + 1 + k] == tt[k]);
        }
        assert(ts.subrange(i2, i2 + tt.len() as int) =~= tt);
        assert(i2 + tt.len() == i + te.len());
        lemma_parse_elems_toks(ts, i2, tail);
        assert(sp_parse_elems(ts, i2) == Ok::<(Seq<SpecJson>, int), JsonError>(
            (tail, i2 + tt.len() as int),
        ));
        assert(seq![es[0]] + tail =~= es);
    }
}

/// Parsing an object's tokens in place yields exactly that object.
#[verifier::rlimit(60)]
pub proof fn lemma_parse_object_toks(ts: Seq<SpecToken>, i: int, ms: Seq<(Seq<char>, SpecJson)>)
    requires
        0 <= i,
        i + toks(SpecJson::Object(ms)).len() <= ts.len(),
        ts.subrange(i, i + toks(SpecJson::Object(ms)).len() as int) == toks(SpecJson::Object(ms)),
    ensures
        sp_parse_object(ts, i) == Ok::<(SpecJson, int), JsonError>(
            (SpecJson::Object(ms), i + toks(SpecJson::Object(ms)).len() as int),
        ),
    decreases toks(SpecJson::Object(ms)).len(), 0int,
{
    let t = toks(SpecJson::Object(ms));
    let tm = toks_members(ms);
    let l = t.len() as int;
    assert(t == seq![SpecToken::LeftBrace] + tm + seq![SpecToken::RightBrace]);
    assert(l == tm.len() + 2);
    assert forall|k: int| 0 <= k < l implies ts[i + k] == t[k] by {
        assert(ts.subrange(i, i + l)[k] == ts[i + k]);
    }
    assert(t[0] == SpecToken::LeftBrace);
    assert(ts[i + 0] == t[0]);
    assert(ts[i] == SpecToken::LeftBrace);
    if ms.len() == 0 {
        assert(tm.len() == 0);
        assert(t[1] == SpecToken::RightBrace);
        assert(ts[i + 1] == t[1]);
        assert(ts[i + 1] == SpecToken::RightBrace);
        assert(ms =~= Seq::<(Seq<char>, SpecJson)>::empty());
        assert(SpecJson::Object(ms) =~= SpecJson::Object(Seq::<(Seq<char>, SpecJson)>::empty()));
    } else {
        assert(toks_member(ms[0])[0] == SpecToken::StringLiteral(ms[0].0));
        assert(tm[0] == toks_member(ms[0])[0]) by {
            if ms.len() > 1 {
                assert(toks_member(ms[0]).len() >= 1);
            }
        }
        assert(t[1] == tm[0]);
        assert(ts[i + 1] == t[1]);
        assert(ts[i + 1] == SpecToken::StringLiteral(ms[0].0));
        assert(ts[i + 1] != SpecToken::RightBrace);
        assert forall|k: int| 0 <= k < tm.len() implies ts.subrange(i + 1, i + 1 + tm.len() as int)[k]
            == tm[k] by {
            assert(ts.subrange(i + 1, i + 1 + tm.len() as int)[k] == ts[i + 1 + k]);
            assert(t[1 + k] == tm[k]);
        }
        assert(ts.subrange(i + 1, i + 1 + tm.len() as int) =~= tm);
        assert(t[l - 1] == SpecToken::RightBrace);
        assert(ts[i + (l - 1)] == t[l - 1]);
        assert(ts[i + 1 + tm.len()] == SpecToken::RightBrace);
        lemma_parse_members_toks(ts, i + 1, ms);
        assert(sp_parse_members(ts, i + 1) == Ok::<(Seq<(Seq<char>, SpecJson)>, int), JsonError>(
            (ms, i + 1 + tm.len()),
        ));
    }
}

/// Parsing a member list's tokens in place yields exactly those members.
#[verifier::rlimit(60)]
pub proof fn lemma_parse_members_toks(ts: Seq<SpecToken>, i: int, ms: Seq<(Seq<char>, SpecJson)>)
    requires
        ms.len() >= 1,
        0 <= i,
        i + toks_members(ms).len() < ts.len(),
        ts.subrange(i, i + toks_members(ms).len() as int) == toks_members(ms),
        ts[i + toks_members(ms).len()] != SpecToken::Comma,
    ensures
        sp_parse_members(ts, i) == Ok::<(Seq<(Seq<char>, SpecJson)>, int), JsonError>(
            (ms, i + toks_members(ms).len() as int),
        ),
    decreases toks_members(ms).len(), 2int,
{
    let tm = toks_members(ms);
    let m0 = toks_member(ms[0]);
    let t1 = toks(ms[0].1);
    let l1 = t1.len() as int;
    lemma_toks_shape(ms[0].1);
    assert(m0 == seq![SpecToken::StringLiteral(ms[0].0), SpecToken::Colon] + t1);
    assert(m0.len() == t1.len() + 2);
    assert forall|k: int| 0 <= k < tm.len() implies ts[i + k] == tm[k] by {
        assert(ts.subrange(i, i + tm.len() as int)[k] == ts[i + k]);
    }
    if ms.len() == 1 {
        assert(tm == m0);
        assert(m0[0] == SpecToken::StringLiteral(ms[0].0));
        assert(m0[1] == SpecToken::Colon);
        assert(ts[i + 0] == tm[0]);
        assert(ts[i + 1] == tm[1]);
        assert(ts[i] == SpecToken::StringLiteral(ms[0].0));
        assert(ts[i + 1] == SpecToken::Colon);
        assert forall|k: int| 0 <= k < l1 implies ts.subrange(i + 2, i + 2 + l1)[k] == t1[k] by {
            assert(ts.subrange(i + 2, i + 2 + l1)[k] == ts[i + 2 + k]);
            assert(tm[2 + k] == t1[k]);
        }
        assert(ts.subrange(i + 2, i + 2 + l1) =~= t1);
        lemma_parse_expr_toks(ts, i + 2, ms[0].1);
        assert(sp_parse_expr(ts, i + 2) == Ok::<(SpecJson, int), JsonError>(
            (ms[0].1, i + 2 + l1),
        ));
        assert(ts[i + 2 + l1] != SpecToken::Comma);
        assert(seq![(ms[0].0, ms[0].1)] =~= ms);
        assert((ms[0].0, ms[0].1) == ms[0]);
    } else {
        let tail = ms.subrange(1, ms.len() as int);
        let tt = toks_members(tail);
        assert(tm == m0 + seq![SpecToken::Comma] + tt);
        assert(m0[0] == SpecToken::StringLiteral(ms[0].0));
        assert(m0[1] == SpecToken::Colon);
        assert(tm[0] == m0[0]);
        assert(tm[1] == m0[1]);
        assert(ts[i + 0] == tm[0]);
        assert(ts[i + 1] == tm[1]);
        assert(ts[i] == SpecToken::StringLiteral(ms[0].0));
        assert(ts[i + 1] == SpecToken::Colon);
        assert forall|k: int| 0 <= k < l1 implies ts.subrange(i + 2, i + 2 + l1)[k] == t1[k] by {
            assert(ts.subrange(i + 2, i + 2 + l1)[k] == ts[i + 2 + k]);
            assert(tm[2 + k] == m0[2 + k]);
            assert(m0[2 + k] == t1[k]);
        }
        assert(ts.subrange(i + 2, i + 2 + l1) =~= t1);
        lemma_parse_expr_toks(ts, i + 2, ms[0].1);
        assert(tm[m0.len() as int] == SpecToken::Comma);
        assert(ts[i + m0.len()] == SpecToken::Comma);
        assert(i + 2 + l1 == i + m0.len());
        let i2 = i + m0.len() + 1;
        assert forall|k: int| 0 <= k < tt.len() implies ts.subrange(i2, i2 + tt.len() as int)[k]
            == tt[k] by {
            assert(ts.subrange(i2, i2 + tt.len() as int)[k] == ts[i2 + k]);
            assert(tm[m0.len() + 1 + k] == tt[k]);
        }
        assert(ts.subrange(i2, i2 + tt.len() as int) =~= tt);
        assert(i2 + tt.len() == i + tm.len());
        lemma_parse_members_toks(ts, i2, tail);
        assert(sp_parse_members(ts, i2) == Ok::<(Seq<(Seq<char>, SpecJson)>, int), JsonError>(
            (tail, i2 + tt.len() as int),
        ));
        assert(seq![(ms[0].0, ms[0].1)] + tail =~= ms);
        assert((ms[0].0, ms[0].1) == ms[0]);
    }
}

/// A successful array parse yields an array.
proof fn lemma_parse_array_is_array(ts: Seq<SpecToken>, i: int)
    ensures
        sp_parse_array(ts, i) matches Ok((v, j)) ==> v matches SpecJson::Array(_),
{
}

/// A successful object parse yields an object.
proof fn lemma_parse_object_is_object(ts: Seq<SpecToken>, i: int)
    ensures
        sp_parse_object(ts, i) matches Ok((v, j)) ==> v matches SpecJson::Object(_),
{
}

/// The round-trip law: whenever a source text parses to a document, writing
/// that document back to text and parsing it again gives the same document.
/// For every input that parses, `parse(serialize(parse(input)))` equals
/// `parse(input)`.
pub proof fn lemma_round_trip(s: Seq<char>, v: SpecJson)
    requires
        spec_json(s) == Ok::<SpecJson, JsonError>(v),
    ensures
        spec_json(spec_ser(v)) == Ok::<SpecJson, JsonError>(v),
{
    let ts0 = spec_lex(s)->Ok_0;
    lemma_lex_tokens_wf(s);
    assert(toks_wf(ts0));
    match ts0[0] {
        SpecToken::LeftBrace => {
            lemma_parse_object_wf(ts0, 0);
            lemma_parse_object_is_object(ts0, 0);
        },
        SpecToken::LeftBracket => {
            lemma_parse_array_wf(ts0, 0);
            lemma_parse_array_is_array(ts0, 0);
        },
        _ => {},
    }
    assert(wf(v));
    lemma_lex_ser(v, Seq::empty());
    assert(spec_ser(v) + Seq::<char>::empty() =~= spec_ser(v));
    assert(spec_lex(Seq::<char>::empty()) == Ok::<Seq<SpecToken>, JsonError>(Seq::empty()));
    assert(toks(v) + Seq::<SpecToken>::empty() =~= toks(v));
    assert(spec_lex(spec_ser(v)) == Ok::<Seq<SpecToken>, JsonError>(toks(v)));
    let t = toks(v);
    assert(t.subrange(0, t.len() as int) =~= t);
    lemma_toks_shape(v);
    match v {
        SpecJson::Array(es) => {
            lemma_parse_array_toks(t, 0, es);
            assert(t[0] == SpecToken::LeftBracket);
        },
        SpecJson::Object(ms) => {
            lemma_parse_object_toks(t, 0, ms);
            assert(t[0] == SpecToken::LeftBrace);
        },
        _ => {},
    }
    assert(sp_parse(t, 0) == Ok::<SpecJson, JsonError>(v));
}

} // verus!
