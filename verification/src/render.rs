use vstd::prelude::*;
use vstd::string::StringExecFns;
use crate::encode::{clist_model, cmodel, lemma_clist_model, CVal, CompactValue};

verus! {

/// The JSON string literal for a text: opening and closing quotes with the
/// characters between them escaped by the usual JSON rules. The exact form is
/// the serializer's; it depends on the characters alone.
pub uninterp spec fn json_quoted(s: Seq<char>) -> Seq<char>;

/// Relies on sonic_rs::to_string for &str: it writes the JSON string literal
/// of the text, a deterministic function of the characters alone, and it
/// cannot fail: the string serializer writes into a vector whose writer
/// methods always return Ok, so the unwrap never panics.
#[verifier::external_body]
pub(crate) fn quote_str(s: &str) -> (r: String)
    ensures
        r@ == json_quoted(s@),
{
    sonic_rs::to_string(s).unwrap()
}

pub open spec fn null_text() -> Seq<char> {
    seq!['n', 'u', 'l', 'l']
}

pub open spec fn true_text() -> Seq<char> {
    seq!['t', 'r', 'u', 'e']
}

pub open spec fn false_text() -> Seq<char> {
    seq!['f', 'a', 'l', 's', 'e']
}

/// The text of a compact value: exactly standard JSON, objects having already
/// been turned into arrays.
pub open spec fn spec_render(c: CVal) -> Seq<char>
    decreases c, 1int,
{
    match c {
        CVal::Null => null_text(),
        CVal::Bool(b) => if b {
            true_text()
        } else {
            false_text()
        },
        CVal::Num(t) => t,
        CVal::Str(s) => json_quoted(s),
        CVal::Arr(es) => seq!['['] + spec_render_items(es) + seq![']'],
    }
}

/// Comma-joined renderings of a sequence of values.
pub open spec fn spec_render_items(es: Seq<CVal>) -> Seq<char>
    decreases es, 0int,
{
    if es.len() == 0 {
        Seq::empty()
    } else {
        spec_render(es[0]) + spec_render_rest(es.drop_first())
    }
}

pub open spec fn spec_render_rest(es: Seq<CVal>) -> Seq<char>
    decreases es, 1int,
{
    if es.len() == 0 {
        Seq::empty()
    } else {
        seq![','] + spec_render(es[0]) + spec_render_rest(es.drop_first())
    }
}

pub proof fn lemma_render_rest_snoc(es: Seq<CVal>, x: CVal)
    ensures
        spec_render_rest(es.push(x)) == spec_render_rest(es) + seq![','] + spec_render(x),
    decreases es.len(),
{
    if es.len() == 0 {
        assert(es.push(x).drop_first() =~= Seq::<CVal>::empty());
        assert(es.push(x)[0] == x);
        assert(spec_render_rest(es.push(x)) == seq![','] + spec_render(x) + spec_render_rest(
            Seq::<CVal>::empty(),
        ));
        assert(spec_render_rest(es.push(x)) =~= spec_render_rest(es) + seq![','] + spec_render(x));
    } else {
        assert(es.push(x).drop_first() =~= es.drop_first().push(x));
        assert(es.push(x)[0] == es[0]);
        lemma_render_rest_snoc(es.drop_first(), x);
        assert(spec_render_rest(es.push(x)) == seq![','] + spec_render(es[0]) + (spec_render_rest(
            es.drop_first(),
        ) + seq![','] + spec_render(x)));
        assert(spec_render_rest(es.push(x)) =~= spec_render_rest(es) + seq![','] + spec_render(x));
    }
}

pub proof fn lemma_render_items_snoc(es: Seq<CVal>, x: CVal)
    ensures
        spec_render_items(es.push(x)) == if es.len() == 0 {
            spec_render(x)
        } else {
            spec_render_items(es) + seq![','] + spec_render(x)
        },
{
    if es.len() == 0 {
        assert(es.push(x).drop_first() =~= Seq::<CVal>::empty());
        assert(es.push(x)[0] == x);
        assert(spec_render_items(es.push(x)) =~= spec_render(x));
    } else {
        assert(es.push(x).drop_first() =~= es.drop_first().push(x));
        assert(es.push(x)[0] == es[0]);
        lemma_render_rest_snoc(es.drop_first(), x);
        assert(spec_render_items(es.push(x)) == spec_render(es[0]) + (spec_render_rest(
            es.drop_first(),
        ) + seq![','] + spec_render(x)));
        assert(spec_render_items(es.push(x)) =~= spec_render_items(es) + seq![','] + spec_render(
            x,
        ));
    }
}

/// Renders a compact value as JSON text.
pub fn render_compact(c: &CompactValue) -> (r: String)
    ensures
        r@ == spec_render(cmodel(*c)),
    decreases *c,
{
    match c {
        CompactValue::Null => {
            let s = String::from_str("null");
            proof {
                reveal_strlit("null");
                assert(s@ =~= null_text());
            }
            s
        },
        CompactValue::Boolean(b) => {
            if *b {
                let s = String::from_str("true");
                proof {
                    reveal_strlit("true");
                    assert(s@ =~= true_text());
                }
                s
            } else {
                let s = String::from_str("false");
                proof {
                    reveal_strlit("false");
                    assert(s@ =~= false_text());
                }
                s
            }
        },
        CompactValue::Number(t) => t.clone(),
        CompactValue::String(s) => quote_str(s.as_str()),
        CompactValue::Array(elems) => {
            let ghost es = clist_model(elems@);
            proof {
                lemma_clist_model(elems@);
            }
            let mut out = String::from_str("[");
            proof {
                reveal_strlit("[");
                assert(out@ =~= seq!['[']);
                assert(es.take(0) =~= Seq::<CVal>::empty());
            }
            let mut i: usize = 0;
            while i < elems.len()
                invariant
                    i <= elems.len(),
                    *c == CompactValue::Array(*elems),
                    es == clist_model(elems@),
                    es.len() == elems@.len(),
                    forall|k: int| 0 <= k < es.len() ==> es[k] == cmodel(#[trigger] elems@[k]),
                    out@ == seq!['['] + spec_render_items(es.take(i as int)),
                decreases elems.len() - i,
            {
                if i > 0 {
                    out.append(",");
                    proof {
                        reveal_strlit(",");
                    }
                }
                proof {
                    assert(*c == CompactValue::Array(*elems));
                    assert(decreases_to!(*c => (*c)->Array_0));
                    assert((*c)->Array_0 == *elems);
                    assert(decreases_to!(*elems => elems@));
                    assert(decreases_to!(elems@ => elems@[i as int]));
                }
                let part = render_compact(&elems[i]);
                out.append(part.as_str());
                proof {
                    assert(es.take(i as int).push(es[i as int]) =~= es.take(i + 1));
                    lemma_render_items_snoc(es.take(i as int), es[i as int]);
                    assert(out@ =~= seq!['['] + spec_render_items(es.take(i + 1)));
                }
                i = i + 1;
            }
            out.append("]");
            proof {
                reveal_strlit("]");
                assert(es.take(es.len() as int) =~= es);
                assert(out@ =~= seq!['['] + spec_render_items(es) + seq![']']);
            }
            out
        },
    }
}

} // verus!
