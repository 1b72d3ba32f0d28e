use vstd::prelude::*;
use vstd::string::StrSliceExecFns;
use crate::encode::{clist_model, cmodel, lemma_clist_model, CVal, CompactValue};
use crate::index::{ix_idx, lemma_ix_idx, lemma_ix_idx_is, names_model, shapes_names_model,
    Index, IndexM, NamesM};
use crate::numeral::{dec_seq, lemma_dec_inj, parse_dec};
use crate::value::{elems_model, lemma_plain_ids_fields_index, lemma_plain_ids_list_index,
    node_model, obj_fields_model, plain_ids, plain_ids_fields, plain_ids_list, JModel, JsonValue,
    Node};
use crate::walk::{elem_path, field_path};

verus! {

/// Why decoding fails: a shape tag that is not a canonical decimal numeral,
/// a tag naming no shape of the path's entry, or an encoded array whose
/// length does not fit the selected shape.
#[derive(Debug, Clone, Copy, PartialEq, Eq, Structural)]
pub enum DecodeError {
    BadTag,
    TagOutOfRange,
    ArityMismatch,
}

/// What the decoder reconstructs. An array at a path the index knows is an
/// encoded object: its positions are relabelled by the path's mapping, with a
/// leading tag selecting the mapping exactly when the path has more than one.
/// An array at any other path is a plain array. Scalars stand for themselves.
pub open spec fn spec_decode(c: CVal, ix: IndexM, path: Seq<char>) -> Result<JModel, DecodeError>
    decreases c, 1int,
{
    match c {
        CVal::Null => Ok(JModel::Null),
        CVal::Bool(b) => Ok(JModel::Bool(b)),
        CVal::Num(t) => Ok(JModel::Num(t)),
        CVal::Str(s) => Ok(JModel::Str(s)),
        CVal::Arr(es) => {
            proof {
                lemma_ix_idx(ix, path);
            }
            if ix_idx(ix, path) == ix.len() {
                match spec_decode_list(es, ix, elem_path(path)) {
                    Ok(vs) => Ok(JModel::Arr(vs)),
                    Err(e) => Err(e),
                }
            } else {
                let shapes = ix[ix_idx(ix, path)].1;
                if shapes.len() == 1 {
                    if shapes[0].len() != es.len() {
                        Err(DecodeError::ArityMismatch)
                    } else {
                        match spec_decode_fields(shapes[0], es, ix, path) {
                            Ok(fs) => Ok(JModel::Obj(None, fs)),
                            Err(e) => Err(e),
                        }
                    }
                } else {
                    if es.len() == 0 {
                        Err(DecodeError::BadTag)
                    } else {
                        match es[0] {
                            CVal::Num(t) => {
                                if exists|i: nat| i <= usize::MAX && t == dec_seq(i) {
                                    let i = choose|i: nat| i <= usize::MAX && t == dec_seq(i);
                                    if i < shapes.len() {
                                        if shapes[i as int].len() != es.len() - 1 {
                                            Err(DecodeError::ArityMismatch)
                                        } else {
                                            match spec_decode_fields(
                                                shapes[i as int],
                                                es.drop_first(),
                                                ix,
                                                path,
                                            ) {
                                                Ok(fs) => Ok(JModel::Obj(None, fs)),
                                                Err(e) => Err(e),
                                            }
                                        }
                                    } else {
                                        Err(DecodeError::TagOutOfRange)
                                    }
                                } else {
                                    Err(DecodeError::BadTag)
                                }
                            },
                            _ => Err(DecodeError::BadTag),
                        }
                    }
                }
            }
        },
    }
}

pub open spec fn spec_decode_list(es: Seq<CVal>, ix: IndexM, path: Seq<char>) -> Result<
    Seq<JModel>,
    DecodeError,
>
    decreases es, 0int,
{
    if es.len() == 0 {
        Ok(Seq::empty())
    } else {
        match spec_decode(es[0], ix, path) {
            Ok(v) => match spec_decode_list(es.drop_first(), ix, path) {
                Ok(vs) => Ok(seq![v] + vs),
                Err(e) => Err(e),
            },
            Err(e) => Err(e),
        }
    }
}

/// Decodes the positions of one encoded object: position j is relabelled by
/// the j-th name of the selected mapping and decoded under that field's path.
pub open spec fn spec_decode_fields(
    names: NamesM,
    es: Seq<CVal>,
    ix: IndexM,
    path: Seq<char>,
) -> Result<Seq<(Seq<char>, JModel)>, DecodeError>
    decreases es, 0int,
{
    if es.len() == 0 || names.len() == 0 {
        Ok(Seq::empty())
    } else {
        match spec_decode(es[0], ix, field_path(path, names[0])) {
            Ok(v) => match spec_decode_fields(names.drop_first(), es.drop_first(), ix, path) {
                Ok(fs) => Ok(seq![(names[0], v)] + fs),
                Err(e) => Err(e),
            },
            Err(e) => Err(e),
        }
    }
}

/// Splitting a field decode at a position where every earlier position
/// decoded successfully.
proof fn lemma_decode_fields_split(
    names: NamesM,
    es: Seq<CVal>,
    ix: IndexM,
    path: Seq<char>,
    j: int,
)
    requires
        names.len() == es.len(),
        0 <= j <= es.len(),
        forall|t: int|
            0 <= t < j ==> spec_decode(#[trigger] es[t], ix, field_path(path, names[t])) is Ok,
    ensures
        spec_decode_fields(names, es, ix, path) == (match spec_decode_fields(
            names.skip(j),
            es.skip(j),
            ix,
            path,
        ) {
            Ok(rest) => Ok::<Seq<(Seq<char>, JModel)>, DecodeError>(
                Seq::new(
                    j as nat,
                    |t: int| (names[t], spec_decode(es[t], ix, field_path(path, names[t]))->Ok_0),
                ) + rest,
            ),
            Err(e) => Err(e),
        }),
    decreases j,
{
    if j == 0 {
        assert(names.skip(0) =~= names);
        assert(es.skip(0) =~= es);
        match spec_decode_fields(names, es, ix, path) {
            Ok(fs) => {
                assert(Seq::new(
                    0,
                    |t: int| (names[t], spec_decode(es[t], ix, field_path(path, names[t]))->Ok_0),
                ) + fs =~= fs);
            },
            Err(_) => {},
        }
    } else {
        lemma_decode_fields_split(names, es, ix, path, j - 1);
        let nj = names.skip(j - 1);
        let ej = es.skip(j - 1);
        assert(ej.len() > 0);
        assert(ej[0] == es[j - 1]);
        assert(nj[0] == names[j - 1]);
        assert(ej.drop_first() =~= es.skip(j));
        assert(nj.drop_first() =~= names.skip(j));
        assert(spec_decode(es[j - 1], ix, field_path(path, names[j - 1])) is Ok);
        let v = spec_decode(es[j - 1], ix, field_path(path, names[j - 1]))->Ok_0;
        match spec_decode_fields(names.skip(j), es.skip(j), ix, path) {
            Ok(rest) => {
                assert(spec_decode_fields(nj, ej, ix, path) == Ok::<
                    Seq<(Seq<char>, JModel)>,
                    DecodeError,
                >(seq![(names[j - 1], v)] + rest));
                let pre1 = Seq::new(
                    (j - 1) as nat,
                    |t: int| (names[t], spec_decode(es[t], ix, field_path(path, names[t]))->Ok_0),
                );
                let pre2 = Seq::new(
                    j as nat,
                    |t: int| (names[t], spec_decode(es[t], ix, field_path(path, names[t]))->Ok_0),
                );
                assert(pre1 + (seq![(names[j - 1], v)] + rest) =~= pre2 + rest);
            },
            Err(e) => {
                assert(spec_decode_fields(nj, ej, ix, path) == Err::<
                    Seq<(Seq<char>, JModel)>,
                    DecodeError,
                >(e));
            },
        }
    }
}

/// The position of a path's entry in the index, or the number of entries.
fn ix_find_entry(ix: &Index, path: &String) -> (i: usize)
    ensures
        i as int == ix_idx(ix.model(), path@),
{
    let mut i: usize = 0;
    while i < ix.entries.len()
        invariant
            i <= ix.entries.len(),
            forall|k: int| 0 <= k < i ==> (#[trigger] ix.model()[k]).0 != path@,
        decreases ix.entries.len() - i,
    {
        if ix.entries[i].0 == *path {
            proof {
                lemma_ix_idx_is(ix.model(), path@, i as int);
            }
            return i;
        }
        i = i + 1;
    }
    proof {
        lemma_ix_idx_is(ix.model(), path@, i as int);
    }
    i
}

/// Decodes one compact value back into an ordinary document, interpreting
/// arrays through the index exactly as the encoder wrote them.
pub fn decode_node(c: &CompactValue, ix: &Index, path: &String) -> (r: Result<Node, DecodeError>)
    ensures
        match r {
            Ok(out) => spec_decode(cmodel(*c), ix.model(), path@) == Ok::<JModel, DecodeError>(
                node_model(out),
            ) && plain_ids(out),
            Err(e) => spec_decode(cmodel(*c), ix.model(), path@) == Err::<JModel, DecodeError>(e),
        },
    decreases *c,
{
    let ghost im = ix.model();
    match c {
        CompactValue::Null => Ok(Node { ind: None, val: JsonValue::Null }),
        CompactValue::Boolean(b) => Ok(Node { ind: None, val: JsonValue::Boolean(*b) }),
        CompactValue::Number(t) => Ok(Node { ind: None, val: JsonValue::Number(t.clone()) }),
        CompactValue::String(s) => Ok(Node { ind: None, val: JsonValue::String(s.clone()) }),
        CompactValue::Array(elems) => {
            let ghost es = clist_model(elems@);
            proof {
                lemma_clist_model(elems@);
                lemma_ix_idx(im, path@);
            }
            let e = ix_find_entry(ix, path);
            if e == ix.entries.len() {
                let p2 = crate::structure::child_elem_path(path);
                match decode_list(elems, ix, &p2) {
                    Ok(out) => Ok(Node { ind: None, val: JsonValue::Array(out) }),
                    Err(err) => Err(err),
                }
            } else {
                let ghost shapes_m = im[e as int].1;
                proof {
                    assert(im[e as int] == (
                        ix.entries@[e as int].0@,
                        shapes_names_model(ix.entries@[e as int].1@),
                    ));
                }
                if ix.entries[e].1.len() == 1 {
                    let arity_ok = ix.entries[e].1[0].len() == elems.len();
                    proof {
                        assert(shapes_m[0] == names_model(ix.entries@[e as int].1@[0]@));
                    }
                    if !arity_ok {
                        return Err(DecodeError::ArityMismatch);
                    }
                    match decode_fields(&ix.entries[e].1[0], elems, 0, ix, path) {
                        Ok(fs) => {
                            proof {
                                assert(es.skip(0) =~= es);
                            }
                            Ok(Node { ind: None, val: JsonValue::Object(fs) })
                        },
                        Err(err) => {
                            proof {
                                assert(es.skip(0) =~= es);
                            }
                            Err(err)
                        },
                    }
                } else {
                    if elems.len() == 0 {
                        return Err(DecodeError::BadTag);
                    }
                    match &elems[0] {
                        CompactValue::Number(t) => {
                            proof {
                                assert(es[0] == cmodel(elems@[0]));
                            }
                            match parse_dec(t.as_str()) {
                                Some(n) => {
                                    proof {
                                        assert(t@ == dec_seq(n as nat));
                                        assert(exists|i: nat|
                                            i <= usize::MAX && t@ == dec_seq(i));
                                        let i = choose|i: nat| i <= usize::MAX && t@ == dec_seq(i);
                                        lemma_dec_inj(i, n as nat);
                                        assert(i == n as nat);
                                    }
                                    if n < ix.entries[e].1.len() {
                                        proof {
                                            assert(shapes_m[n as int] == names_model(
                                                ix.entries@[e as int].1@[n as int]@,
                                            ));
                                        }
                                        if ix.entries[e].1[n].len() != elems.len() - 1 {
                                            return Err(DecodeError::ArityMismatch);
                                        }
                                        match decode_fields(&ix.entries[e].1[n], elems, 1, ix, path) {
                                            Ok(fs) => {
                                                proof {
                                                    assert(es.skip(1) =~= es.drop_first());
                                                }
                                                Ok(Node { ind: None, val: JsonValue::Object(fs) })
                                            },
                                            Err(err) => {
                                                proof {
                                                    assert(es.skip(1) =~= es.drop_first());
                                                }
                                                Err(err)
                                            },
                                        }
                                    } else {
                                        Err(DecodeError::TagOutOfRange)
                                    }
                                },
                                None => {
                                    proof {
                                        assert forall|i: nat|
                                            !(i <= usize::MAX && t@ == dec_seq(i)) by {
                                            if i <= usize::MAX {
                                                assert(t@ != dec_seq(i));
                                            }
                                        }
                                    }
                                    Err(DecodeError::BadTag)
                                },
                            }
                        },
                        _ => {
                            proof {
                                assert(es[0] == cmodel(elems@[0]));
                            }
                            Err(DecodeError::BadTag)
                        },
                    }
                }
            }
        },
    }
}

/// Decodes every element of a plain array.
fn decode_list(elems: &Vec<CompactValue>, ix: &Index, path: &String) -> (r: Result<
    Vec<Node>,
    DecodeError,
>)
    ensures
        match r {
            Ok(out) => spec_decode_list(clist_model(elems@), ix.model(), path@) == Ok::<
                Seq<JModel>,
                DecodeError,
            >(elems_model(out@)) && plain_ids_list(out@),
            Err(e) => spec_decode_list(clist_model(elems@), ix.model(), path@) == Err::<
                Seq<JModel>,
                DecodeError,
            >(e),
        },
    decreases *elems,
{
    let ghost im = ix.model();
    let ghost es = clist_model(elems@);
    proof {
        lemma_clist_model(elems@);
    }
    let mut out: Vec<Node> = Vec::new();
    let mut i: usize = 0;
    while i < elems.len()
        invariant
            i <= elems.len(),
            im == ix.model(),
            es == clist_model(elems@),
            es.len() == elems@.len(),
            forall|k: int| 0 <= k < es.len() ==> es[k] == cmodel(#[trigger] elems@[k]),
            out@.len() == i,
            plain_ids_list(out@),
            forall|t: int|
                0 <= t < i ==> spec_decode(es[t], im, path@) == Ok::<JModel, DecodeError>(
                    node_model(#[trigger] out@[t]),
                ),
        decreases elems.len() - i,
    {
        match decode_node(&elems[i], ix, path) {
            Ok(v) => {
                let ghost vm = node_model(v);
                let ghost v_plain = plain_ids(v);
                let ghost prev = out@;
                out.push(v);
                proof {
                    assert forall|t: int| 0 <= t < out@.len() implies spec_decode(es[t], im, path@)
                        == Ok::<JModel, DecodeError>(node_model(#[trigger] out@[t])) by {
                        if t < i {
                            assert(out@[t] == prev[t]);
                        } else {
                            assert(node_model(out@[t]) == vm);
                        }
                    }
                    lemma_plain_ids_list_index(prev);
                    lemma_plain_ids_list_index(out@);
                    assert forall|t: int| 0 <= t < out@.len() implies plain_ids(
                        #[trigger] out@[t],
                    ) by {
                        if t < i {
                            assert(out@[t] == prev[t]);
                        } else {
                            assert(v_plain);
                        }
                    }
                }
                i = i + 1;
            },
            Err(err) => {
                proof {
                    assert forall|t: int| 0 <= t < i implies spec_decode(
                        #[trigger] es[t],
                        im,
                        path@,
                    ) is Ok by {
                        assert(spec_decode(es[t], im, path@) == Ok::<JModel, DecodeError>(
                            node_model(out@[t]),
                        ));
                    }
                    lemma_decode_list_split(es, im, path@, i as int);
                }
                return Err(err);
            },
        }
    }
    proof {
        assert forall|t: int| 0 <= t < i implies spec_decode(#[trigger] es[t], im, path@) is Ok by {
            assert(spec_decode(es[t], im, path@) == Ok::<JModel, DecodeError>(node_model(out@[t])));
        }
        lemma_decode_list_split(es, im, path@, i as int);
        crate::value::lemma_elems_model(out@);
        assert(es.skip(i as int) =~= Seq::<CVal>::empty());
        match spec_decode_list(es, im, path@) {
            Ok(vs) => {
                assert(vs =~= elems_model(out@)) by {
                    assert(vs == Seq::new(
                        es.len(),
                        |t: int| spec_decode(es[t], im, path@)->Ok_0,
                    ) + Seq::<JModel>::empty());
                    assert forall|t: int| 0 <= t < es.len() implies vs[t] == elems_model(out@)[t]
                        by {
                        assert(spec_decode(es[t], im, path@) == Ok::<JModel, DecodeError>(
                            node_model(out@[t]),
                        ));
                        assert(elems_model(out@)[t] == node_model(out@[t]));
                    }
                }
            },
            Err(_) => {},
        }
    }
    Ok(out)
}

/// Splitting a list decode at a position where every earlier element decoded
/// successfully.
proof fn lemma_decode_list_split(es: Seq<CVal>, ix: IndexM, path: Seq<char>, j: int)
    requires
        0 <= j <= es.len(),
        forall|t: int| 0 <= t < j ==> spec_decode(#[trigger] es[t], ix, path) is Ok,
    ensures
        spec_decode_list(es, ix, path) == (match spec_decode_list(es.skip(j), ix, path) {
            Ok(rest) => Ok::<Seq<JModel>, DecodeError>(
                Seq::new(j as nat, |t: int| spec_decode(es[t], ix, path)->Ok_0) + rest,
            ),
            Err(e) => Err(e),
        }),
    decreases j,
{
    if j == 0 {
        assert(es.skip(0) =~= es);
        match spec_decode_list(es, ix, path) {
            Ok(vs) => {
                assert(Seq::new(0, |t: int| spec_decode(es[t], ix, path)->Ok_0) + vs =~= vs);
            },
            Err(_) => {},
        }
    } else {
        lemma_decode_list_split(es, ix, path, j - 1);
        let ej = es.skip(j - 1);
        assert(ej.len() > 0);
        assert(ej[0] == es[j - 1]);
        assert(ej.drop_first() =~= es.skip(j));
        let v = spec_decode(es[j - 1], ix, path)->Ok_0;
        match spec_decode_list(es.skip(j), ix, path) {
            Ok(rest) => {
                assert(spec_decode_list(ej, ix, path) == Ok::<Seq<JModel>, DecodeError>(
                    seq![v] + rest,
                ));
                let pre1 = Seq::new((j - 1) as nat, |t: int| spec_decode(es[t], ix, path)->Ok_0);
                let pre2 = Seq::new(j as nat, |t: int| spec_decode(es[t], ix, path)->Ok_0);
                assert(pre1 + (seq![v] + rest) =~= pre2 + rest);
            },
            Err(e) => {
                assert(spec_decode_list(ej, ix, path) == Err::<Seq<JModel>, DecodeError>(e));
            },
        }
    }
}

/// Decodes the positions of one encoded object, starting at the given offset
/// of the compact array (one, when a tag was read; zero otherwise).
fn decode_fields(
    names: &Vec<String>,
    elems: &Vec<CompactValue>,
    off: usize,
    ix: &Index,
    path: &String,
) -> (r: Result<Vec<(String, Node)>, DecodeError>)
    requires
        off <= elems@.len(),
        names@.len() == elems@.len() - off,
    ensures
        match r {
            Ok(out) => spec_decode_fields(
                names_model(names@),
                clist_model(elems@).skip(off as int),
                ix.model(),
                path@,
            ) == Ok::<Seq<(Seq<char>, JModel)>, DecodeError>(obj_fields_model(out@))
                && plain_ids_fields(out@),
            Err(e) => spec_decode_fields(
                names_model(names@),
                clist_model(elems@).skip(off as int),
                ix.model(),
                path@,
            ) == Err::<Seq<(Seq<char>, JModel)>, DecodeError>(e),
        },
    decreases *elems,
{
    let ghost im = ix.model();
    let ghost nm = names_model(names@);
    let ghost es = clist_model(elems@).skip(off as int);
    proof {
        lemma_clist_model(elems@);
    }
    let mut out: Vec<(String, Node)> = Vec::new();
    let total = elems.len();
    let mut j: usize = 0;
    while j < names.len()
        invariant
            j <= names.len(),
            off + names@.len() == elems@.len(),
            total == elems@.len(),
            im == ix.model(),
            nm == names_model(names@),
            nm.len() == names@.len(),
            es == clist_model(elems@).skip(off as int),
            es.len() == names@.len(),
            forall|k: int|
                0 <= k < es.len() ==> es[k] == cmodel(#[trigger] elems@[off + k]),
            forall|k: int| 0 <= k < nm.len() ==> nm[k] == (#[trigger] names@[k])@,
            out@.len() == j,
            plain_ids_fields(out@),
            forall|t: int|
                0 <= t < j ==> spec_decode(es[t], im, field_path(path@, nm[t])) == Ok::<
                    JModel,
                    DecodeError,
                >(node_model((#[trigger] out@[t]).1)) && out@[t].0@ == nm[t],
        decreases names.len() - j,
    {
        let name = names[j].clone();
        let p2 = crate::structure::child_field_path(path, &name);
        proof {
            assert(es[j as int] == cmodel(elems@[off + j]));
        }
        match decode_node(&elems[off + j], ix, &p2) {
            Ok(v) => {
                let ghost vm = node_model(v);
                let ghost v_plain = plain_ids(v);
                let ghost prev = out@;
                out.push((name, v));
                proof {
                    assert forall|t: int| 0 <= t < out@.len() implies spec_decode(
                        es[t],
                        im,
                        field_path(path@, nm[t]),
                    ) == Ok::<JModel, DecodeError>(node_model((#[trigger] out@[t]).1))
                        && out@[t].0@ == nm[t] by {
                        if t < j {
                            assert(out@[t] == prev[t]);
                        } else {
                            assert(node_model(out@[t].1) == vm);
                            assert(out@[t].0@ == nm[t]);
                        }
                    }
                    lemma_plain_ids_fields_index(prev);
                    lemma_plain_ids_fields_index(out@);
                    assert forall|t: int| 0 <= t < out@.len() implies plain_ids(
                        (#[trigger] out@[t]).1,
                    ) by {
                        if t < j {
                            assert(out@[t] == prev[t]);
                        } else {
                            assert(v_plain);
                        }
                    }
                }
                j = j + 1;
            },
            Err(err) => {
                proof {
                    assert forall|t: int| 0 <= t < j implies spec_decode(
                        #[trigger] es[t],
                        im,
                        field_path(path@, nm[t]),
                    ) is Ok by {
                        assert(spec_decode(es[t], im, field_path(path@, nm[t])) == Ok::<
                            JModel,
                            DecodeError,
                        >(node_model(out@[t].1)));
                    }
                    lemma_decode_fields_split(nm, es, im, path@, j as int);
                }
                return Err(err);
            },
        }
    }
    proof {
        assert forall|t: int| 0 <= t < j implies spec_decode(
            #[trigger] es[t],
            im,
            field_path(path@, nm[t]),
        ) is Ok by {
            assert(spec_decode(es[t], im, field_path(path@, nm[t])) == Ok::<JModel, DecodeError>(
                node_model(out@[t].1),
            ));
        }
        lemma_decode_fields_split(nm, es, im, path@, j as int);
        crate::value::lemma_obj_fields_model(out@);
        assert(es.skip(j as int) =~= Seq::<CVal>::empty());
        assert(nm.skip(j as int) =~= Seq::<Seq<char>>::empty());
        match spec_decode_fields(nm, es, im, path@) {
            Ok(fs) => {
                assert(fs =~= obj_fields_model(out@)) by {
                    assert(fs == Seq::new(
                        es.len(),
                        |t: int| (nm[t], spec_decode(es[t], im, field_path(path@, nm[t]))->Ok_0),
                    ) + Seq::<(Seq<char>, JModel)>::empty());
                    assert forall|t: int| 0 <= t < es.len() implies fs[t] == obj_fields_model(
                        out@,
                    )[t] by {
                        assert(spec_decode(es[t], im, field_path(path@, nm[t])) == Ok::<
                            JModel,
                            DecodeError,
                        >(node_model(out@[t].1)));
                        assert(obj_fields_model(out@)[t] == (out@[t].0@, node_model(out@[t].1)));
                    }
                }
            },
            Err(_) => {},
        }
    }
    Ok(out)
}

} // verus!
