//! The serializer: writes an expression tree back to source text. Number
//! literals are written as their kept source text; string literals are
//! written verbatim between quotes (their escapes were never decoded, so
//! nothing is re-encoded).

use vstd::prelude::*;
use crate::ast::{JsonExpression, SpecJson, view_elems, view_members, lemma_view_elems,
    lemma_view_members};

verus! {

/// The text of a value.
pub open spec fn spec_ser(v: SpecJson) -> Seq<char>
    decreases v,
{
    match v {
        SpecJson::Number(w) => w,
        SpecJson::String(b) => seq!['"'] + b + seq!['"'],
        SpecJson::Array(es) => seq!['['] + spec_ser_elems(es) + seq![']'],
        SpecJson::Object(ms) => seq!['{'] + spec_ser_members(ms) + seq!['}'],
    }
}

/// The text of an array's elements, separated by commas.
pub open spec fn spec_ser_elems(es: Seq<SpecJson>) -> Seq<char>
    decreases es,
{
    if es.len() == 0 {
        Seq::empty()
    } else if es.len() == 1 {
        spec_ser(es[0])
    } else {
        spec_ser(es[0]) + seq![','] + spec_ser_elems(es.subrange(1, es.len() as int))
    }
}

/// The text of one object member: quoted key, colon, value.
pub open spec fn spec_ser_member(m: (Seq<char>, SpecJson)) -> Seq<char>
    decreases m,
{
    seq!['"'] + m.0 + seq!['"', ':'] + spec_ser(m.1)
}

/// The text of an object's members, separated by commas.
pub open spec fn spec_ser_members(ms: Seq<(Seq<char>, SpecJson)>) -> Seq<char>
    decreases ms,
{
    if ms.len() == 0 {
        Seq::empty()
    } else if ms.len() == 1 {
        spec_ser_member(ms[0])
    } else {
        spec_ser_member(ms[0]) + seq![','] + spec_ser_members(ms.subrange(1, ms.len() as int))
    }
}

/// Writing one more element appends a comma (after the first) and its text.
pub proof fn lemma_ser_elems_snoc(es: Seq<SpecJson>, e: SpecJson)
    ensures
        spec_ser_elems(es.push(e)) == if es.len() == 0 {
            spec_ser(e)
        } else {
            spec_ser_elems(es) + seq![','] + spec_ser(e)
        },
    decreases es.len(),
{
    let full = es.push(e);
    if es.len() == 0 {
        assert(full.len() == 1);
        assert(full[0] == e);
    } else {
        lemma_ser_elems_snoc(es.subrange(1, es.len() as int), e);
        assert(full.subrange(1, full.len() as int) =~= es.subrange(1, es.len() as int).push(e));
        assert(full[0] == es[0]);
        if es.len() == 1 {
            assert(es.subrange(1, es.len() as int).len() == 0);
        } else {
            assert(spec_ser(es[0]) + seq![','] + (spec_ser_elems(es.subrange(1, es.len() as int))
                + seq![','] + spec_ser(e)) =~= (spec_ser(es[0]) + seq![','] + spec_ser_elems(
                es.subrange(1, es.len() as int),
            )) + seq![','] + spec_ser(e));
        }
    }
}

/// Writing one more member appends a comma (after the first) and its text.
pub proof fn lemma_ser_members_snoc(ms: Seq<(Seq<char>, SpecJson)>, m: (Seq<char>, SpecJson))
    ensures
        spec_ser_members(ms.push(m)) == if ms.len() == 0 {
            spec_ser_member(m)
        } else {
            spec_ser_members(ms) + seq![','] + spec_ser_member(m)
        },
    decreases ms.len(),
{
    let full = ms.push(m);
    if ms.len() == 0 {
        assert(full.len() == 1);
        assert(full[0] == m);
    } else {
        lemma_ser_members_snoc(ms.subrange(1, ms.len() as int), m);
        assert(full.subrange(1, full.len() as int) =~= ms.subrange(1, ms.len() as int).push(m));
        assert(full[0] == ms[0]);
        if ms.len() == 1 {
            assert(ms.subrange(1, ms.len() as int).len() == 0);
        } else {
            assert(spec_ser_member(ms[0]) + seq![','] + (spec_ser_members(
                ms.subrange(1, ms.len() as int),
            ) + seq![','] + spec_ser_member(m)) =~= (spec_ser_member(ms[0]) + seq![',']
                + spec_ser_members(ms.subrange(1, ms.len() as int))) + seq![','] + spec_ser_member(
                m,
            ));
        }
    }
}

/// Writes a value back to source text.
#[verifier::loop_isolation(false)]
pub fn serialize(v: &JsonExpression) -> (r: String)
    ensures
        r@ == spec_ser(v@),
    decreases v,
{
    proof {
        reveal_strlit("\"");
        reveal_strlit("[");
        reveal_strlit("]");
        reveal_strlit("{");
        reveal_strlit("}");
        reveal_strlit(",");
        reveal_strlit(":");
    }
    match v {
        JsonExpression::Number(w) => w.clone(),
        JsonExpression::String(b) => {
            let mut out = String::new();
            out.append("\"");
            out.append(b.as_str());
            out.append("\"");
            proof {
                assert(out@ =~= seq!['"'] + b@ + seq!['"']);
            }
            out
        },
        JsonExpression::Array(es) => {
            let mut out = String::new();
            out.append("[");
            proof {
                assert(view_elems(es@.subrange(0, 0)) =~= Seq::<SpecJson>::empty());
                assert(out@ =~= seq!['['] + spec_ser_elems(view_elems(es@.subrange(0, 0))));
            }
            let mut k: usize = 0;
            while k < es.len()
                invariant
                    0 <= k <= es@.len(),
                    out@ == seq!['['] + spec_ser_elems(view_elems(es@.subrange(0, k as int))),
                decreases es@.len() - k,
            {
                if k > 0 {
                    out.append(",");
                }
                let piece = serialize(&es[k]);
                out.append(piece.as_str());
                proof {
                    let pk = view_elems(es@.subrange(0, k as int));
                    lemma_view_elems(es@.subrange(0, k as int));
                    lemma_view_elems(es@.subrange(0, k + 1));
                    lemma_ser_elems_snoc(pk, es@[k as int]@);
                    assert(view_elems(es@.subrange(0, k + 1)) =~= pk.push(es@[k as int]@));
                    assert(out@ =~= seq!['['] + spec_ser_elems(view_elems(es@.subrange(0, k + 1))));
                }
                k = k + 1;
            }
            out.append("]");
            proof {
                assert(es@.subrange(0, es@.len() as int) =~= es@);
                assert(out@ =~= seq!['['] + spec_ser_elems(view_elems(es@)) + seq![']']);
            }
            out
        },
        JsonExpression::Object(ms) => {
            let mut out = String::new();
            out.append("{");
            proof {
                assert(view_members(ms@.subrange(0, 0)) =~= Seq::<(Seq<char>, SpecJson)>::empty());
                assert(out@ =~= seq!['{'] + spec_ser_members(view_members(ms@.subrange(0, 0))));
            }
            let mut k: usize = 0;
            while k < ms.len()
                invariant
                    0 <= k <= ms@.len(),
                    out@ == seq!['{'] + spec_ser_members(view_members(ms@.subrange(0, k as int))),
                decreases ms@.len() - k,
            {
                if k > 0 {
                    out.append(",");
                }
                out.append("\"");
                out.append(ms[k].0.as_str());
                out.append("\"");
                out.append(":");
                let piece = serialize(&ms[k].1);
                out.append(piece.as_str());
                proof {
                    let pk = view_members(ms@.subrange(0, k as int));
                    let m = (ms@[k as int].0@, ms@[k as int].1@);
                    lemma_view_members(ms@.subrange(0, k as int));
                    lemma_view_members(ms@.subrange(0, k + 1));
                    lemma_ser_members_snoc(pk, m);
                    assert(view_members(ms@.subrange(0, k + 1)) =~= pk.push(m));
                    assert(out@ =~= seq!['{'] + spec_ser_members(
                        view_members(ms@.subrange(0, k + 1)),
                    ));
                }
                k = k + 1;
            }
            out.append("}");
            proof {
                assert(ms@.subrange(0, ms@.len() as int) =~= ms@);
                assert(out@ =~= seq!['{'] + spec_ser_members(view_members(ms@)) + seq!['}']);
            }
            out
        },
    }
}

} // verus!
