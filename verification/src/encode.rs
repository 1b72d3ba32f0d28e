use vstd::prelude::*;
use crate::numeral::{dec_seq, dec_string};
use crate::registry::{entry_shapes_at, shape_idx, wf_reg, lemma_shape_idx,
    lemma_shape_idx_is, pairs_model, RegM, Registry, Shape, ShapeM};
use crate::value::{elems_model, kind_of_model, lemma_elems_model, lemma_obj_fields_model,
    lemma_value_kind, node_model, obj_fields_model, pairs_of_fields, JModel, JsonValue, Kind,
    Node};
use crate::walk::{covered, covered_fields, covered_list, elem_path, field_path,
    lemma_covered_fields_index, lemma_covered_list_index, shape_of_fields};

verus! {

/// A value of the compact document: standard JSON without objects, since
/// every object has been re-rendered as an array.
#[derive(Debug)]
pub enum CompactValue {
    Null,
    Boolean(bool),
    Number(String),
    String(String),
    Array(Vec<CompactValue>),
}

/// The mathematical model of a compact value.
pub enum CVal {
    Null,
    Bool(bool),
    Num(Seq<char>),
    Str(Seq<char>),
    Arr(Seq<CVal>),
}

pub open spec fn cmodel(c: CompactValue) -> CVal
    decreases c,
{
    match c {
        CompactValue::Null => CVal::Null,
        CompactValue::Boolean(b) => CVal::Bool(b),
        CompactValue::Number(t) => CVal::Num(t@),
        CompactValue::String(s) => CVal::Str(s@),
        CompactValue::Array(elems) => CVal::Arr(clist_model(elems@)),
    }
}

pub open spec fn clist_model(s: Seq<CompactValue>) -> Seq<CVal>
    decreases s,
{
    if s.len() == 0 {
        Seq::empty()
    } else {
        seq![cmodel(s[0])] + clist_model(s.drop_first())
    }
}

pub proof fn lemma_clist_model(s: Seq<CompactValue>)
    ensures
        clist_model(s).len() == s.len(),
        forall|i: int| 0 <= i < s.len() ==> clist_model(s)[i] == cmodel(#[trigger] s[i]),
    decreases s.len(),
{
    if s.len() > 0 {
        lemma_clist_model(s.drop_first());
        assert forall|i: int| 0 <= i < s.len() implies clist_model(s)[i] == cmodel(s[i]) by {
            if i > 0 {
                assert(s.drop_first()[i - 1] == s[i]);
            }
        }
    }
}

/// The first position of a field with the given name (the length if none).
pub open spec fn field_idx(fs: Seq<(Seq<char>, JModel)>, name: Seq<char>) -> int
    decreases fs.len(),
{
    if fs.len() == 0 {
        0
    } else if fs[0].0 == name {
        0
    } else {
        1 + field_idx(fs.drop_first(), name)
    }
}

pub proof fn lemma_field_idx(fs: Seq<(Seq<char>, JModel)>, name: Seq<char>)
    ensures
        0 <= field_idx(fs, name) <= fs.len(),
        field_idx(fs, name) < fs.len() ==> fs[field_idx(fs, name)].0 == name,
        forall|k: int| 0 <= k < field_idx(fs, name) ==> (#[trigger] fs[k]).0 != name,
    decreases fs.len(),
{
    if fs.len() > 0 && fs[0].0 != name {
        lemma_field_idx(fs.drop_first(), name);
        assert forall|k: int| 0 <= k < field_idx(fs, name) implies (#[trigger] fs[k]).0
            != name by {
            if k > 0 {
                assert(fs.drop_first()[k - 1] == fs[k]);
            }
        }
    }
}

pub proof fn lemma_field_idx_is(fs: Seq<(Seq<char>, JModel)>, name: Seq<char>, i: int)
    requires
        0 <= i <= fs.len(),
        forall|k: int| 0 <= k < i ==> (#[trigger] fs[k]).0 != name,
        i < fs.len() ==> fs[i].0 == name,
    ensures
        field_idx(fs, name) == i,
    decreases fs.len(),
{
    if fs.len() > 0 {
        if i == 0 {
        } else {
            assert(fs[0].0 != name);
            assert forall|k: int| 0 <= k < i - 1 implies (#[trigger] fs.drop_first()[k]).0
                != name by {
                assert(fs.drop_first()[k] == fs[k + 1]);
            }
            assert(i - 1 < fs.drop_first().len() ==> fs.drop_first()[i - 1].0 == name);
            lemma_field_idx_is(fs.drop_first(), name, i - 1);
        }
    }
}

/// The value of the first field with the given name.
pub open spec fn field_lookup(fs: Seq<(Seq<char>, JModel)>, name: Seq<char>) -> JModel {
    if field_idx(fs, name) < fs.len() {
        fs[field_idx(fs, name)].1
    } else {
        JModel::Null
    }
}

/// What the array encoder produces: scalars keep their JSON form, arrays
/// keep order, and an object becomes the array of its field values in its
/// shape's sorted order, preceded by the shape id exactly when the object's
/// path has more than one recorded shape.
pub open spec fn spec_encode(m: JModel, path: Seq<char>, r: RegM) -> CVal
    decreases m, 0int,
{
    match m {
        JModel::Null => CVal::Null,
        JModel::Bool(b) => CVal::Bool(b),
        JModel::Num(t) => CVal::Num(t),
        JModel::Str(s) => CVal::Str(s),
        JModel::Arr(es) => CVal::Arr(spec_encode_list(es, elem_path(path), r)),
        JModel::Obj(ind, fs) => {
            let entry = entry_shapes_at(r, path);
            let i = match ind {
                Some(i) => i,
                None => 0,
            };
            let sh = if 0 <= i < entry.len() {
                entry[i]
            } else {
                Seq::empty()
            };
            let vals = spec_encode_obj(sh, fs, path, r);
            if entry.len() > 1 {
                CVal::Arr(seq![CVal::Num(dec_seq(i as nat))] + vals)
            } else {
                CVal::Arr(vals)
            }
        },
    }
}

pub open spec fn spec_encode_list(es: Seq<JModel>, path: Seq<char>, r: RegM) -> Seq<CVal>
    decreases es, 0int,
{
    if es.len() == 0 {
        Seq::empty()
    } else {
        seq![spec_encode(es[0], path, r)] + spec_encode_list(es.drop_first(), path, r)
    }
}

/// The field values of one object in shape order: for each (name, kind) of
/// the shape, the encoding of the object's field of that name.
pub open spec fn spec_encode_obj(
    sh: ShapeM,
    fs: Seq<(Seq<char>, JModel)>,
    path: Seq<char>,
    r: RegM,
) -> Seq<CVal>
    decreases fs, sh.len(),
{
    if sh.len() == 0 {
        Seq::empty()
    } else {
        proof {
            lemma_field_idx(fs, sh[0].0);
        }
        let v = if field_idx(fs, sh[0].0) < fs.len() {
            spec_encode(fs[field_idx(fs, sh[0].0)].1, field_path(path, sh[0].0), r)
        } else {
            CVal::Null
        };
        seq![v] + spec_encode_obj(sh.drop_first(), fs, path, r)
    }
}

pub proof fn lemma_spec_encode_list_index(es: Seq<JModel>, path: Seq<char>, r: RegM)
    ensures
        spec_encode_list(es, path, r).len() == es.len(),
        forall|i: int|
            0 <= i < es.len() ==> spec_encode_list(es, path, r)[i] == spec_encode(
                #[trigger] es[i],
                path,
                r,
            ),
    decreases es.len(),
{
    if es.len() > 0 {
        lemma_spec_encode_list_index(es.drop_first(), path, r);
        assert forall|i: int| 0 <= i < es.len() implies spec_encode_list(es, path, r)[i]
            == spec_encode(es[i], path, r) by {
            if i > 0 {
                assert(es.drop_first()[i - 1] == es[i]);
            }
        }
    }
}

pub proof fn lemma_spec_encode_obj_index(
    sh: ShapeM,
    fs: Seq<(Seq<char>, JModel)>,
    path: Seq<char>,
    r: RegM,
)
    ensures
        spec_encode_obj(sh, fs, path, r).len() == sh.len(),
        forall|j: int|
            0 <= j < sh.len() ==> spec_encode_obj(sh, fs, path, r)[j] == (
                if field_idx(fs, (#[trigger] sh[j]).0) < fs.len() {
                    spec_encode(
                        fs[field_idx(fs, sh[j].0)].1,
                        field_path(path, sh[j].0),
                        r,
                    )
                } else {
                    CVal::Null
                }
            ),
    decreases sh.len(),
{
    if sh.len() > 0 {
        lemma_spec_encode_obj_index(sh.drop_first(), fs, path, r);
        assert forall|j: int| 0 <= j < sh.len() implies spec_encode_obj(sh, fs, path, r)[j] == (
            if field_idx(fs, sh[j].0) < fs.len() {
                spec_encode(fs[field_idx(fs, sh[j].0)].1, field_path(path, sh[j].0), r)
            } else {
                CVal::Null
            }
        ) by {
            if j > 0 {
                assert(sh.drop_first()[j - 1] == sh[j]);
            }
        }
    }
}

/// An element occurring at two positions occurs at least twice in the
/// multiset.
proof fn lemma_dup_count<A>(s: Seq<A>, i: int, j: int)
    requires
        0 <= i < j < s.len(),
        s[i] == s[j],
    ensures
        s.to_multiset().count(s[i]) >= 2,
    decreases i,
{
    broadcast use vstd::seq_lib::group_to_multiset_ensures;
    broadcast use vstd::multiset::group_multiset_axioms;

    assert(s.drop_first() =~= s.remove(0));
    assert(s.drop_first().to_multiset() == s.to_multiset().remove(s[0]));
    if i == 0 {
        assert(s.drop_first()[j - 1] == s[j]);
        assert(s.drop_first().contains(s[j]));
        assert(s.drop_first().to_multiset().count(s[j]) > 0);
        assert(s.to_multiset().count(s[0]) == s.drop_first().to_multiset().count(s[0]) + 1);
    } else {
        lemma_dup_count(s.drop_first(), i - 1, j - 1);
        assert(s.drop_first()[i - 1] == s[i]);
        assert(s.drop_first()[j - 1] == s[j]);
        if s[0] == s[i] {
            assert(s.to_multiset().count(s[i]) == s.drop_first().to_multiset().count(s[i]) + 1);
        } else {
            assert(s.to_multiset().count(s[i]) == s.drop_first().to_multiset().count(s[i]));
        }
    }
}

/// If the sorted shape of an object's pairs has pairwise distinct names,
/// then the object's own field names were pairwise distinct.
pub proof fn lemma_shape_match_distinct(fs: Seq<(Seq<char>, JModel)>)
    requires
        forall|a: int, b: int|
            0 <= a < b < shape_of_fields(fs).len() ==> (#[trigger] shape_of_fields(fs)[a]).0 != (
            #[trigger] shape_of_fields(fs)[b]).0,
    ensures
        crate::value::distinct_names(fs),
{
    broadcast use vstd::seq_lib::group_to_multiset_ensures;

    let pairs = pairs_of_fields(fs);
    let sorted = shape_of_fields(fs);
    crate::registry::lemma_field_le_total_ordering();
    pairs.lemma_sort_by_ensures(crate::registry::field_leq_fn());
    assert(sorted.no_duplicates());
    sorted.lemma_multiset_has_no_duplicates();
    assert forall|i: int, j: int| 0 <= i < j < fs.len() implies (#[trigger] fs[i]).0 != (
    #[trigger] fs[j]).0 by {
        if fs[i].0 == fs[j].0 {
            let x = pairs[i];
            let y = pairs[j];
            assert(x == (fs[i].0, kind_of_model(fs[i].1)));
            assert(y == (fs[j].0, kind_of_model(fs[j].1)));
            if x == y {
                lemma_dup_count(pairs, i, j);
                assert(sorted.to_multiset().count(x) >= 2);
                assert(sorted.to_multiset().contains(x)) by {
                    broadcast use vstd::multiset::group_multiset_axioms;

                }
            } else {
                assert(pairs.contains(x));
                assert(pairs.to_multiset().contains(x));
                assert(sorted.to_multiset().contains(x));
                assert(sorted.contains(x));
                assert(pairs.contains(y));
                assert(pairs.to_multiset().contains(y));
                assert(sorted.to_multiset().contains(y));
                assert(sorted.contains(y));
                let a = choose|a: int| 0 <= a < sorted.len() && sorted[a] == x;
                let b = choose|b: int| 0 <= b < sorted.len() && sorted[b] == y;
                assert(a != b);
                assert(sorted[a].0 != sorted[b].0) by {
                    if a < b {
                        assert((#[trigger] sorted[a]).0 != (#[trigger] sorted[b]).0);
                    } else {
                        assert((#[trigger] sorted[b]).0 != (#[trigger] sorted[a]).0);
                    }
                }
            }
        }
    }
}

/// Every name of an object's shape names one of the object's fields.
pub proof fn lemma_shape_names_in_fields(fs: Seq<(Seq<char>, JModel)>, j: int)
    requires
        0 <= j < shape_of_fields(fs).len(),
    ensures
        field_idx(fs, shape_of_fields(fs)[j].0) < fs.len(),
{
    broadcast use vstd::seq_lib::group_to_multiset_ensures;

    let pairs = pairs_of_fields(fs);
    let sorted = shape_of_fields(fs);
    crate::registry::lemma_field_le_total_ordering();
    pairs.lemma_sort_by_ensures(crate::registry::field_leq_fn());
    assert(sorted.contains(sorted[j]));
    assert(sorted.to_multiset().contains(sorted[j]));
    assert(pairs.to_multiset().contains(sorted[j]));
    assert(pairs.contains(sorted[j]));
    let t = choose|t: int| 0 <= t < pairs.len() && pairs[t] == sorted[j];
    assert(fs[t].0 == sorted[j].0);
    lemma_field_idx(fs, sorted[j].0);
    if field_idx(fs, sorted[j].0) == fs.len() {
        assert(fs[t].0 != sorted[j].0);
    }
}

/// Every field of an object appears, with its kind, in the object's shape.
pub proof fn lemma_fields_in_shape(fs: Seq<(Seq<char>, JModel)>, k: int)
    requires
        0 <= k < fs.len(),
    ensures
        exists|j: int|
            0 <= j < shape_of_fields(fs).len() && #[trigger] shape_of_fields(fs)[j] == (
                fs[k].0,
                kind_of_model(fs[k].1),
            ),
{
    broadcast use vstd::seq_lib::group_to_multiset_ensures;

    let pairs = pairs_of_fields(fs);
    let sorted = shape_of_fields(fs);
    crate::registry::lemma_field_le_total_ordering();
    pairs.lemma_sort_by_ensures(crate::registry::field_leq_fn());
    assert(pairs[k] == (fs[k].0, kind_of_model(fs[k].1)));
    assert(pairs.contains(pairs[k]));
    assert(pairs.to_multiset().contains(pairs[k]));
    assert(sorted.to_multiset().contains(pairs[k]));
    assert(sorted.contains(pairs[k]));
    let j = choose|j: int| 0 <= j < sorted.len() && sorted[j] == pairs[k];
    assert(sorted[j] == (fs[k].0, kind_of_model(fs[k].1)));
}

/// Rendering an object fails only when its live field set disagrees with the
/// shape it was assigned.
#[derive(Debug, Clone, Copy, PartialEq, Eq, Structural)]
pub enum EncodeError {
    ShapeMismatch,
}

/// Renders one node of the value tree into the compact form, consulting the
/// registry for field order and id-tag decisions. Succeeds exactly when the
/// registry covers the node: on a mismatch between an object's live fields
/// and its assigned shape it fails rather than truncate.
pub fn encode_node(node: &Node, reg: &Registry, path: &String) -> (r: Result<
    CompactValue,
    EncodeError,
>)
    requires
        wf_reg(reg.model()),
    ensures
        match r {
            Ok(c) => covered(node_model(*node), path@, reg.model()) && cmodel(c) == spec_encode(
                node_model(*node),
                path@,
                reg.model(),
            ),
            Err(_) => !covered(node_model(*node), path@, reg.model()),
        },
    decreases *node,
{
    let ghost rm = reg.model();
    match &node.val {
        JsonValue::Null => Ok(CompactValue::Null),
        JsonValue::Boolean(b) => Ok(CompactValue::Boolean(*b)),
        JsonValue::Number(t) => Ok(CompactValue::Number(t.clone())),
        JsonValue::String(s) => Ok(CompactValue::String(s.clone())),
        JsonValue::Array(elems) => {
            let p2 = crate::structure::child_elem_path(path);
            match encode_list(elems, reg, &p2) {
                Ok(out) => Ok(CompactValue::Array(out)),
                Err(e) => Err(e),
            }
        },
        JsonValue::Object(fields) => {
            let ghost m = node_model(*node);
            let ghost fs = obj_fields_model(fields@);
            proof {
                lemma_obj_fields_model(fields@);
            }
            let ind_val: usize = match node.ind {
                Some(i) => i,
                None => {
                    return Err(EncodeError::ShapeMismatch);
                },
            };
            let e = reg.find_entry(path);
            proof {
                crate::registry::lemma_reg_idx(rm, path@);
            }
            if e == reg.entries.len() {
                return Err(EncodeError::ShapeMismatch);
            }
            let ghost entry = entry_shapes_at(rm, path@);
            proof {
                assert((e as int) < rm.len());
                assert(rm[e as int].1 == crate::registry::shapes_model(reg.entries@[e as int].1@));
                assert(entry == crate::registry::shapes_model(reg.entries@[e as int].1@));
            }
            if ind_val >= reg.entries[e].1.len() {
                return Err(EncodeError::ShapeMismatch);
            }
            // rebuild this object's shape and hold it against the assigned one
            let mut pairs: Vec<(String, Kind)> = Vec::new();
            let mut k: usize = 0;
            while k < fields.len()
                invariant
                    k <= fields.len(),
                    fs == obj_fields_model(fields@),
                    fs.len() == fields@.len(),
                    forall|t: int|
                        0 <= t < fields@.len() ==> fs[t] == (
                            #[trigger] fields@[t].0@,
                            node_model(fields@[t].1),
                        ),
                    pairs@.len() == k,
                    forall|t: int|
                        0 <= t < k ==> (#[trigger] pairs@[t]).0@ == fs[t].0 && pairs@[t].1
                            == kind_of_model(fs[t].1),
                decreases fields.len() - k,
            {
                let kind = fields[k].1.val.json_type();
                let name = fields[k].0.clone();
                proof {
                    lemma_value_kind(fields@[k as int].1);
                    assert(fs[k as int] == (fields@[k as int].0@, node_model(fields@[k as int].1)));
                    assert(name@ == fs[k as int].0);
                    assert(kind == kind_of_model(fs[k as int].1));
                }
                pairs.push((name, kind));
                proof {
                    assert((#[trigger] pairs@[k as int]).0@ == fs[k as int].0);
                    assert(pairs@[k as int].1 == kind_of_model(fs[k as int].1));
                }
                k = k + 1;
            }
            proof {
                assert(pairs_model(pairs@) =~= pairs_of_fields(fs));
            }
            let shape2 = Shape::of_pairs(pairs);
            proof {
                assert(shape2.model() == shape_of_fields(fs));
            }
            if !crate::registry::shape_eq(&reg.entries[e].1[ind_val], &shape2) {
                proof {
                    if covered(m, path@, rm) {
                        assert(m == JModel::Obj(Some(ind_val as int), fs));
                        crate::registry::lemma_shape_idx(entry, shape_of_fields(fs));
                        assert(ind_val as int == shape_idx(entry, shape_of_fields(fs)));
                        assert(entry[ind_val as int] == shape_of_fields(fs));
                    }
                }
                return Err(EncodeError::ShapeMismatch);
            }
            proof {
                assert(entry[ind_val as int] == reg.entries@[e as int].1@[ind_val as int].model());
                assert(entry[ind_val as int] == shape_of_fields(fs));
                assert forall|t: int| 0 <= t < ind_val implies #[trigger] entry[t]
                    != shape_of_fields(fs) by {
                    assert(entry[t] != entry[ind_val as int]);
                }
                lemma_shape_idx_is(entry, shape_of_fields(fs), ind_val as int);
                lemma_shape_match_distinct(fs);
            }
            match encode_obj_vals(fields, &shape2, reg, path) {
                Ok(vals) => {
                    proof {
                        assert(m == JModel::Obj(Some(ind_val as int), fs));
                        assert(covered(m, path@, rm));
                    }
                    if reg.entries[e].1.len() > 1 {
                        let tag = dec_string(ind_val);
                        let mut out: Vec<CompactValue> = Vec::new();
                        out.push(CompactValue::Number(tag));
                        let ghost vals0 = vals@;
                        let mut vals2 = vals;
                        out.append(&mut vals2);
                        let res = CompactValue::Array(out);
                        proof {
                            lemma_clist_model(out@);
                            lemma_clist_model(vals0);
                            let target = seq![CVal::Num(dec_seq(ind_val as nat))]
                                + spec_encode_obj(entry[ind_val as int], fs, path@, rm);
                            assert forall|t: int| 0 <= t < out@.len() implies clist_model(
                                out@,
                            )[t] == target[t] by {
                                if t > 0 {
                                    assert(out@[t] == vals0[t - 1]);
                                    assert(clist_model(vals0)[t - 1] == cmodel(vals0[t - 1]));
                                }
                            }
                            assert(clist_model(out@) =~= target);
                            assert(cmodel(res) == spec_encode(m, path@, rm));
                        }
                        Ok(res)
                    } else {
                        let res = CompactValue::Array(vals);
                        proof {
                            assert(cmodel(res) == spec_encode(m, path@, rm));
                        }
                        Ok(res)
                    }
                },
                Err(err) => {
                    proof {
                        assert(m == JModel::Obj(Some(ind_val as int), fs));
                    }
                    Err(err)
                },
            }
        },
    }
}

/// Renders the field values of one object in its shape's sorted order.
fn encode_obj_vals(
    fields: &Vec<(String, Node)>,
    shape: &Shape,
    reg: &Registry,
    path: &String,
) -> (r: Result<Vec<CompactValue>, EncodeError>)
    requires
        wf_reg(reg.model()),
        shape.model() == shape_of_fields(obj_fields_model(fields@)),
        crate::value::distinct_names(obj_fields_model(fields@)),
    ensures
        match r {
            Ok(vals) => clist_model(vals@) == spec_encode_obj(
                shape.model(),
                obj_fields_model(fields@),
                path@,
                reg.model(),
            ) && covered_fields(obj_fields_model(fields@), path@, reg.model()),
            Err(_) => !covered_fields(obj_fields_model(fields@), path@, reg.model()),
        },
    decreases *fields,
{
    let ghost rm = reg.model();
    let ghost fs = obj_fields_model(fields@);
    let ghost sh = shape.model();
    proof {
        lemma_obj_fields_model(fields@);
        lemma_spec_encode_obj_index(sh, fs, path@, rm);
    }
    let mut vals: Vec<CompactValue> = Vec::new();
    let mut j: usize = 0;
    while j < shape.fields.len()
        invariant
            j <= shape.fields.len(),
            rm == reg.model(),
            wf_reg(rm),
            sh == shape.model(),
            sh.len() == shape.fields@.len(),
            fs == obj_fields_model(fields@),
            fs.len() == fields@.len(),
            forall|t: int|
                0 <= t < fields@.len() ==> fs[t] == (
                    #[trigger] fields@[t].0@,
                    node_model(fields@[t].1),
                ),
            sh == shape_of_fields(fs),
            crate::value::distinct_names(fs),
            vals@.len() == j,
            forall|t: int|
                0 <= t < j ==> cmodel(#[trigger] vals@[t]) == spec_encode_obj(
                    sh,
                    fs,
                    path@,
                    rm,
                )[t],
            forall|t: int|
                0 <= t < j ==> field_idx(fs, (#[trigger] sh[t]).0) < fs.len() && covered(
                    fs[field_idx(fs, sh[t].0)].1,
                    field_path(path@, sh[t].0),
                    rm,
                ),
        decreases shape.fields@.len() - j,
    {
        proof {
            lemma_spec_encode_obj_index(sh, fs, path@, rm);
            assert(sh[j as int] == (shape.fields@[j as int].0@, shape.fields@[j as int].1));
        }
        let name = &shape.fields[j].0;
        match find_field(fields, name) {
            Some(fi) => {
                let p2 = crate::structure::child_field_path(path, name);
                match encode_node(&fields[fi].1, reg, &p2) {
                    Ok(c) => {
                        let ghost cm = cmodel(c);
                        proof {
                            assert(fs[fi as int] == (
                                fields@[fi as int].0@,
                                node_model(fields@[fi as int].1),
                            ));
                            assert(node_model(fields@[fi as int].1) == fs[fi as int].1);
                            assert(fi as int == field_idx(fs, sh[j as int].0));
                            assert(spec_encode_obj(sh, fs, path@, rm)[j as int] == spec_encode(
                                fs[field_idx(fs, sh[j as int].0)].1,
                                field_path(path@, sh[j as int].0),
                                rm,
                            ));
                        }
                        vals.push(c);
                        proof {
                            assert(cmodel(#[trigger] vals@[j as int]) == cm);
                        }
                        j = j + 1;
                    },
                    Err(err) => {
                        proof {
                            lemma_field_idx(fs, sh[j as int].0);
                            crate::walk::lemma_covered_fields_index(fs, path@, rm);
                            if covered_fields(fs, path@, rm) {
                                assert(covered(
                                    (#[trigger] fs[fi as int]).1,
                                    field_path(path@, fs[fi as int].0),
                                    rm,
                                ));
                                assert(fs[fi as int].0 == sh[j as int].0);
                            }
                        }
                        return Err(err);
                    },
                }
            },
            None => {
                proof {
                    lemma_shape_names_in_fields(fs, j as int);
                }
                return Err(EncodeError::ShapeMismatch);
            },
        }
    }
    proof {
        lemma_clist_model(vals@);
        lemma_spec_encode_obj_index(sh, fs, path@, rm);
        assert forall|t: int| 0 <= t < vals@.len() implies clist_model(vals@)[t]
            == spec_encode_obj(sh, fs, path@, rm)[t] by {
            assert(clist_model(vals@)[t] == cmodel(vals@[t]));
        }
        assert(clist_model(vals@) =~= spec_encode_obj(sh, fs, path@, rm));
        crate::walk::lemma_covered_fields_index(fs, path@, rm);
        assert forall|t: int| 0 <= t < fs.len() implies covered(
            (#[trigger] fs[t]).1,
            field_path(path@, fs[t].0),
            rm,
        ) by {
            lemma_fields_in_shape(fs, t);
            let jj = choose|jj: int|
                0 <= jj < shape_of_fields(fs).len() && #[trigger] shape_of_fields(fs)[jj] == (
                    fs[t].0,
                    kind_of_model(fs[t].1),
                );
            lemma_field_idx(fs, sh[jj].0);
            assert(field_idx(fs, sh[jj].0) == t) by {
                let ft = field_idx(fs, sh[jj].0);
                assert(sh[jj].0 == fs[t].0);
                assert(ft < fs.len()) by {
                    if ft == fs.len() {
                        assert((#[trigger] fs[t]).0 != sh[jj].0);
                    }
                }
                assert(fs[ft].0 == fs[t].0);
                if ft < t {
                    assert((#[trigger] fs[ft]).0 != (#[trigger] fs[t]).0);
                } else if ft > t {
                    assert((#[trigger] fs[t]).0 != (#[trigger] fs[ft]).0);
                }
            }
            assert(covered(fs[field_idx(fs, sh[jj].0)].1, field_path(path@, sh[jj].0), rm));
        }
    }
    Ok(vals)
}


/// Renders every element of an array, in order.
fn encode_list(elems: &Vec<Node>, reg: &Registry, path: &String) -> (r: Result<
    Vec<CompactValue>,
    EncodeError,
>)
    requires
        wf_reg(reg.model()),
    ensures
        match r {
            Ok(out) => covered_list(elems_model(elems@), path@, reg.model()) && clist_model(out@)
                == spec_encode_list(elems_model(elems@), path@, reg.model()),
            Err(_) => !covered_list(elems_model(elems@), path@, reg.model()),
        },
    decreases *elems,
{
    let ghost rm = reg.model();
    let ghost es = elems_model(elems@);
    proof {
        lemma_elems_model(elems@);
        lemma_spec_encode_list_index(es, path@, rm);
        lemma_covered_list_index(es, path@, rm);
    }
    let mut out: Vec<CompactValue> = Vec::new();
    let mut i: usize = 0;
    while i < elems.len()
        invariant
            i <= elems.len(),
            rm == reg.model(),
            wf_reg(rm),
            es == elems_model(elems@),
            es.len() == elems@.len(),
            forall|k: int| 0 <= k < es.len() ==> es[k] == node_model(#[trigger] elems@[k]),
            out@.len() == i,
            forall|t: int|
                0 <= t < i ==> cmodel(#[trigger] out@[t]) == spec_encode_list(es, path@, rm)[t],
            forall|t: int| 0 <= t < i ==> covered(#[trigger] es[t], path@, rm),
        decreases elems.len() - i,
    {
        match encode_node(&elems[i], reg, path) {
            Ok(c) => {
                let ghost cm = cmodel(c);
                let ghost prev = out@;
                proof {
                    lemma_spec_encode_list_index(es, path@, rm);
                    assert(es[i as int] == node_model(elems@[i as int]));
                }
                out.push(c);
                proof {
                    assert forall|t: int| 0 <= t < out@.len() implies cmodel(#[trigger] out@[t])
                        == spec_encode_list(es, path@, rm)[t] by {
                        if t < i {
                            assert(out@[t] == prev[t]);
                            assert(cmodel(prev[t]) == spec_encode_list(es, path@, rm)[t]);
                        } else {
                            assert(cmodel(out@[t]) == cm);
                        }
                    }
                }
                i = i + 1;
            },
            Err(e) => {
                proof {
                    lemma_covered_list_index(es, path@, rm);
                }
                return Err(e);
            },
        }
    }
    proof {
        lemma_clist_model(out@);
        lemma_spec_encode_list_index(es, path@, rm);
        assert forall|t: int| 0 <= t < out@.len() implies clist_model(out@)[t]
            == spec_encode_list(es, path@, rm)[t] by {
            assert(clist_model(out@)[t] == cmodel(out@[t]));
        }
        assert(clist_model(out@) =~= spec_encode_list(es, path@, rm));
        lemma_covered_list_index(es, path@, rm);
    }
    Ok(out)
}

/// The first field with the given name, executably.
fn find_field(fields: &Vec<(String, Node)>, name: &String) -> (r: Option<usize>)
    ensures
        match r {
            Some(i) => i as int == field_idx(obj_fields_model(fields@), name@) && (i as int)
                < fields@.len(),
            None => field_idx(obj_fields_model(fields@), name@) == fields@.len(),
        },
{
    proof {
        lemma_obj_fields_model(fields@);
    }
    let ghost fs = obj_fields_model(fields@);
    let mut i: usize = 0;
    while i < fields.len()
        invariant
            i <= fields.len(),
            fs == obj_fields_model(fields@),
            fs.len() == fields@.len(),
            forall|k: int|
                0 <= k < fs.len() ==> fs[k] == (
                    #[trigger] fields@[k].0@,
                    node_model(fields@[k].1),
                ),
            forall|k: int| 0 <= k < i ==> (#[trigger] fs[k]).0 != name@,
        decreases fields.len() - i,
    {
        if fields[i].0 == *name {
            proof {
                lemma_field_idx_is(fs, name@, i as int);
            }
            return Some(i);
        }
        i = i + 1;
    }
    proof {
        lemma_field_idx_is(fs, name@, i as int);
    }
    None
}

} // verus!
