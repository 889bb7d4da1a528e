//! Data model: tokens, expression nodes, and the error taxonomy, each with a
//! mathematical view for use in contracts.

use vstd::prelude::*;

verus! {

/// Everything that can go wrong while lexing or parsing.
#[derive(Clone, Copy, Debug, PartialEq, Eq, Structural)]
pub enum JsonError {
    /// A required position holds the wrong kind of token (missing brace,
    /// bracket, colon, key string, or a bare scalar at top level).
    SyntaxError,
    /// A bareword that does not parse as a 64-bit float.
    NumberFormatError,
    /// End of input inside a string literal, before its closing quote.
    UnterminatedString,
    /// The token sequence ran out while more tokens were required.
    UnexpectedEndOfInput,
}

/// One lexical unit. Number literals carry their source text verbatim (the
/// lexer checks that the text parses as a 64-bit float but does not decode
/// it); string literals carry the raw characters between the quotes, with
/// escape sequences left undecoded.
#[derive(Debug, Clone)]
pub enum Token {
    LeftBrace,
    RightBrace,
    LeftBracket,
    RightBracket,
    Comma,
    Colon,
    NumberLiteral(String),
    StringLiteral(String),
}

/// The mathematical value of a `Token`: payloads as character sequences.
#[verifier::ext_equal]
pub enum SpecToken {
    LeftBrace,
    RightBrace,
    LeftBracket,
    RightBracket,
    Comma,
    Colon,
    NumberLiteral(Seq<char>),
    StringLiteral(Seq<char>),
}

impl View for Token {
    type V = SpecToken;

    open spec fn view(&self) -> SpecToken {
        match self {
            Token::LeftBrace => SpecToken::LeftBrace,
            Token::RightBrace => SpecToken::RightBrace,
            Token::LeftBracket => SpecToken::LeftBracket,
            Token::RightBracket => SpecToken::RightBracket,
            Token::Comma => SpecToken::Comma,
            Token::Colon => SpecToken::Colon,
            Token::NumberLiteral(s) => SpecToken::NumberLiteral(s@),
            Token::StringLiteral(s) => SpecToken::StringLiteral(s@),
        }
    }
}

/// The views of a token sequence.
pub open spec fn toks_view(ts: Seq<Token>) -> Seq<SpecToken> {
    ts.map_values(|t: Token| t@)
}

/// One node of the abstract syntax tree. `Number` keeps the literal's source
/// text; `String` keeps the raw characters between the quotes. Arrays and
/// objects own their children; object members are kept in source order and
/// duplicate keys are preserved, not merged.
#[derive(Debug, PartialEq)]
pub enum JsonExpression {
    Number(String),
    String(String),
    Array(Vec<JsonExpression>),
    Object(Vec<(String, JsonExpression)>),
}

/// The mathematical value of a `JsonExpression`.
#[verifier::ext_equal]
pub enum SpecJson {
    Number(Seq<char>),
    String(Seq<char>),
    Array(Seq<SpecJson>),
    Object(Seq<(Seq<char>, SpecJson)>),
}

impl View for JsonExpression {
    type V = SpecJson;

    open spec fn view(&self) -> SpecJson
        decreases self,
    {
        match self {
            JsonExpression::Number(s) => SpecJson::Number(s@),
            JsonExpression::String(s) => SpecJson::String(s@),
            JsonExpression::Array(es) => SpecJson::Array(view_elems(es@)),
            JsonExpression::Object(ms) => SpecJson::Object(view_members(ms@)),
        }
    }
}

/// The views of an array's elements.
pub open spec fn view_elems(es: Seq<JsonExpression>) -> Seq<SpecJson>
    decreases es,
{
    if es.len() == 0 {
        Seq::empty()
    } else {
        view_elems(es.drop_last()).push(es.last()@)
    }
}

/// The views of an object's members.
pub open spec fn view_members(ms: Seq<(String, JsonExpression)>) -> Seq<(Seq<char>, SpecJson)>
    decreases ms,
{
    if ms.len() == 0 {
        Seq::empty()
    } else {
        view_members(ms.drop_last()).push((ms.last().0@, ms.last().1@))
    }
}

/// `view_elems` maps each element to its view.
pub proof fn lemma_view_elems(es: Seq<JsonExpression>)
    ensures
        view_elems(es).len() == es.len(),
        forall|i: int| 0 <= i < es.len() ==> #[trigger] view_elems(es)[i] == es[i]@,
    decreases es.len(),
{
    if es.len() > 0 {
        lemma_view_elems(es.drop_last());
        assert(view_elems(es) == view_elems(es.drop_last()).push(es.last()@));
        assert forall|i: int| 0 <= i < es.len() implies #[trigger] view_elems(es)[i]
            == es[i]@ by {
            if i < es.len() - 1 {
                assert(es.drop_last()[i] == es[i]);
                assert(view_elems(es)[i] == view_elems(es.drop_last())[i]);
            } else {
                assert(es[i] == es.last());
            }
        }
    }
}

/// `view_members` maps each member to the views of its key and value.
pub proof fn lemma_view_members(ms: Seq<(String, JsonExpression)>)
    ensures
        view_members(ms).len() == ms.len(),
        forall|i: int| 0 <= i < ms.len() ==> #[trigger] view_members(ms)[i] == (
            ms[i].0@,
            ms[i].1@,
        ),
    decreases ms.len(),
{
    if ms.len() > 0 {
        lemma_view_members(ms.drop_last());
        assert(view_members(ms) == view_members(ms.drop_last()).push((ms.last().0@, ms.last().1@)));
        assert forall|i: int| 0 <= i < ms.len() implies #[trigger] view_members(ms)[i] == (
            ms[i].0@,
            ms[i].1@,
        ) by {
            if i < ms.len() - 1 {
                assert(ms.drop_last()[i] == ms[i]);
                assert(view_members(ms)[i] == view_members(ms.drop_last())[i]);
            } else {
                assert(ms[i] == ms.last());
            }
        }
    }
}

} // verus!
