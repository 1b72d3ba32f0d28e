use vstd::prelude::*;
use crate::registry::{entry_shapes_at, field_leq_fn, observe_m, reg_extends, reg_idx,
    shape_idx, lemma_reg_idx, lemma_reg_idx_extends, lemma_shape_idx, lemma_shape_idx_is, RegM,
    ShapeM};
use crate::value::{depth, depth_of_fields, depth_of_list, distinct_names, pairs_of_fields,
    JModel};

verus! {

/// The path of an object's field: descending into field `f` appends `.f`.
pub open spec fn field_path(path: Seq<char>, name: Seq<char>) -> Seq<char> {
    path + seq!['.'] + name
}

/// The path of an array's elements: descending into any element appends `[]`.
pub open spec fn elem_path(path: Seq<char>) -> Seq<char> {
    path + seq!['[', ']']
}

/// The shape of an object: its (name, kind) pairs sorted by field name.
pub open spec fn shape_of_fields(fs: Seq<(Seq<char>, JModel)>) -> ShapeM {
    pairs_of_fields(fs).sort_by(field_leq_fn())
}

/// A well-formed document: every object's field names are pairwise distinct.
pub open spec fn wf_doc(m: JModel) -> bool
    decreases m,
{
    match m {
        JModel::Arr(es) => wf_doc_list(es),
        JModel::Obj(_, fs) => distinct_names(fs) && wf_doc_fields(fs),
        _ => true,
    }
}

pub open spec fn wf_doc_list(es: Seq<JModel>) -> bool
    decreases es,
{
    if es.len() == 0 {
        true
    } else {
        wf_doc(es[0]) && wf_doc_list(es.drop_first())
    }
}

pub open spec fn wf_doc_fields(fs: Seq<(Seq<char>, JModel)>) -> bool
    decreases fs,
{
    if fs.len() == 0 {
        true
    } else {
        wf_doc(fs[0].1) && wf_doc_fields(fs.drop_first())
    }
}

pub proof fn lemma_wf_doc_list_index(es: Seq<JModel>)
    ensures
        wf_doc_list(es) <==> (forall|k: int| 0 <= k < es.len() ==> wf_doc(#[trigger] es[k])),
    decreases es.len(),
{
    if es.len() > 0 {
        lemma_wf_doc_list_index(es.drop_first());
        assert forall|k: int| 0 <= k < es.len() && wf_doc_list(es) implies wf_doc(
            #[trigger] es[k],
        ) by {
            if k > 0 {
                assert(es.drop_first()[k - 1] == es[k]);
            }
        }
        if forall|k: int| 0 <= k < es.len() ==> wf_doc(#[trigger] es[k]) {
            assert forall|k: int| 0 <= k < es.drop_first().len() implies wf_doc(
                #[trigger] es.drop_first()[k],
            ) by {
                assert(es.drop_first()[k] == es[k + 1]);
            }
        }
    }
}

pub proof fn lemma_wf_doc_fields_index(fs: Seq<(Seq<char>, JModel)>)
    ensures
        wf_doc_fields(fs) <==> (forall|k: int|
            0 <= k < fs.len() ==> wf_doc((#[trigger] fs[k]).1)),
    decreases fs.len(),
{
    if fs.len() > 0 {
        lemma_wf_doc_fields_index(fs.drop_first());
        assert forall|k: int| 0 <= k < fs.len() && wf_doc_fields(fs) implies wf_doc(
            (#[trigger] fs[k]).1,
        ) by {
            if k > 0 {
                assert(fs.drop_first()[k - 1] == fs[k]);
            }
        }
        if forall|k: int| 0 <= k < fs.len() ==> wf_doc((#[trigger] fs[k]).1) {
            assert forall|k: int| 0 <= k < fs.drop_first().len() implies wf_doc(
                (#[trigger] fs.drop_first()[k]).1,
            ) by {
                assert(fs.drop_first()[k] == fs[k + 1]);
            }
        }
    }
}

/// What one depth-first traversal of a value does to the shape registry:
/// arrays walk their elements in order under the element path; objects walk
/// their field values in order, each under its field path, and then record
/// their own shape at the object's own path.
pub open spec fn walk_reg(m: JModel, path: Seq<char>, r: RegM) -> RegM
    decreases m,
{
    match m {
        JModel::Arr(es) => walk_reg_list(es, elem_path(path), r),
        JModel::Obj(_, fs) => observe_m(
            walk_reg_fields(fs, path, r),
            path,
            shape_of_fields(fs),
        ),
        _ => r,
    }
}

pub open spec fn walk_reg_list(es: Seq<JModel>, path: Seq<char>, r: RegM) -> RegM
    decreases es,
{
    if es.len() == 0 {
        r
    } else {
        walk_reg_list(es.drop_first(), path, walk_reg(es[0], path, r))
    }
}

pub open spec fn walk_reg_fields(fs: Seq<(Seq<char>, JModel)>, path: Seq<char>, r: RegM) -> RegM
    decreases fs,
{
    if fs.len() == 0 {
        r
    } else {
        walk_reg_fields(
            fs.drop_first(),
            path,
            walk_reg(fs[0].1, field_path(path, fs[0].0), r),
        )
    }
}

pub proof fn lemma_walk_reg_list_snoc(es: Seq<JModel>, x: JModel, path: Seq<char>, r: RegM)
    ensures
        walk_reg_list(es.push(x), path, r) == walk_reg(x, path, walk_reg_list(es, path, r)),
    decreases es.len(),
{
    if es.len() == 0 {
        assert(es.push(x).drop_first() =~= Seq::<JModel>::empty());
        assert(es.push(x)[0] == x);
        assert(walk_reg_list(es.push(x), path, r) == walk_reg_list(
            Seq::<JModel>::empty(),
            path,
            walk_reg(x, path, r),
        ));
        assert(walk_reg_list(Seq::<JModel>::empty(), path, walk_reg(x, path, r)) == walk_reg(
            x,
            path,
            r,
        ));
        assert(walk_reg_list(es, path, r) == r);
    } else {
        assert(es.push(x).drop_first() =~= es.drop_first().push(x));
        assert(es.push(x)[0] == es[0]);
        assert(walk_reg_list(es.push(x), path, r) == walk_reg_list(
            es.drop_first().push(x),
            path,
            walk_reg(es[0], path, r),
        ));
        lemma_walk_reg_list_snoc(es.drop_first(), x, path, walk_reg(es[0], path, r));
        assert(walk_reg_list(es, path, r) == walk_reg_list(
            es.drop_first(),
            path,
            walk_reg(es[0], path, r),
        ));
    }
}

pub proof fn lemma_walk_reg_fields_snoc(
    fs: Seq<(Seq<char>, JModel)>,
    x: (Seq<char>, JModel),
    path: Seq<char>,
    r: RegM,
)
    ensures
        walk_reg_fields(fs.push(x), path, r) == walk_reg(
            x.1,
            field_path(path, x.0),
            walk_reg_fields(fs, path, r),
        ),
    decreases fs.len(),
{
    if fs.len() == 0 {
        assert(fs.push(x).drop_first() =~= Seq::<(Seq<char>, JModel)>::empty());
        assert(fs.push(x)[0] == x);
        assert(walk_reg_fields(fs.push(x), path, r) == walk_reg_fields(
            Seq::<(Seq<char>, JModel)>::empty(),
            path,
            walk_reg(x.1, field_path(path, x.0), r),
        ));
        assert(walk_reg_fields(
            Seq::<(Seq<char>, JModel)>::empty(),
            path,
            walk_reg(x.1, field_path(path, x.0), r),
        ) == walk_reg(x.1, field_path(path, x.0), r));
        assert(walk_reg_fields(fs, path, r) == r);
    } else {
        assert(fs.push(x).drop_first() =~= fs.drop_first().push(x));
        assert(fs.push(x)[0] == fs[0]);
        assert(walk_reg_fields(fs.push(x), path, r) == walk_reg_fields(
            fs.drop_first().push(x),
            path,
            walk_reg(fs[0].1, field_path(path, fs[0].0), r),
        ));
        lemma_walk_reg_fields_snoc(
            fs.drop_first(),
            x,
            path,
            walk_reg(fs[0].1, field_path(path, fs[0].0), r),
        );
        assert(walk_reg_fields(fs, path, r) == walk_reg_fields(
            fs.drop_first(),
            path,
            walk_reg(fs[0].1, field_path(path, fs[0].0), r),
        ));
    }
}

/// Walking only grows the registry.
pub proof fn lemma_walk_reg_extends(m: JModel, path: Seq<char>, r: RegM)
    ensures
        reg_extends(r, walk_reg(m, path, r)),
    decreases m,
{
    crate::registry::lemma_reg_extends_refl(r);
    match m {
        JModel::Arr(es) => {
            lemma_walk_reg_list_extends(es, elem_path(path), r);
        },
        JModel::Obj(_, fs) => {
            lemma_walk_reg_fields_extends(fs, path, r);
            let r2 = walk_reg_fields(fs, path, r);
            crate::registry::lemma_observe_extends(r2, path, shape_of_fields(fs));
            crate::registry::lemma_reg_extends_trans(r, r2, walk_reg(m, path, r));
        },
        _ => {},
    }
}

pub proof fn lemma_walk_reg_list_extends(es: Seq<JModel>, path: Seq<char>, r: RegM)
    ensures
        reg_extends(r, walk_reg_list(es, path, r)),
    decreases es,
{
    crate::registry::lemma_reg_extends_refl(r);
    if es.len() > 0 {
        lemma_walk_reg_extends(es[0], path, r);
        let r2 = walk_reg(es[0], path, r);
        lemma_walk_reg_list_extends(es.drop_first(), path, r2);
        crate::registry::lemma_reg_extends_trans(r, r2, walk_reg_list(es, path, r));
    }
}

pub proof fn lemma_walk_reg_fields_extends(fs: Seq<(Seq<char>, JModel)>, path: Seq<char>, r: RegM)
    ensures
        reg_extends(r, walk_reg_fields(fs, path, r)),
    decreases fs,
{
    crate::registry::lemma_reg_extends_refl(r);
    if fs.len() > 0 {
        lemma_walk_reg_extends(fs[0].1, field_path(path, fs[0].0), r);
        let r2 = walk_reg(fs[0].1, field_path(path, fs[0].0), r);
        lemma_walk_reg_fields_extends(fs.drop_first(), path, r2);
        crate::registry::lemma_reg_extends_trans(r, r2, walk_reg_fields(fs, path, r));
    }
}

/// The annotation the traversal gives a tree: every object's shape id is the
/// position of its shape in the registry's entry for the object's path.
pub open spec fn annotate(m: JModel, path: Seq<char>, r: RegM) -> JModel
    decreases m,
{
    match m {
        JModel::Arr(es) => JModel::Arr(annotate_list(es, elem_path(path), r)),
        JModel::Obj(_, fs) => JModel::Obj(
            Some(shape_idx(entry_shapes_at(r, path), shape_of_fields(fs))),
            annotate_fields(fs, path, r),
        ),
        _ => m,
    }
}

pub open spec fn annotate_list(es: Seq<JModel>, path: Seq<char>, r: RegM) -> Seq<JModel>
    decreases es,
{
    if es.len() == 0 {
        Seq::empty()
    } else {
        seq![annotate(es[0], path, r)] + annotate_list(es.drop_first(), path, r)
    }
}

pub open spec fn annotate_fields(fs: Seq<(Seq<char>, JModel)>, path: Seq<char>, r: RegM) -> Seq<
    (Seq<char>, JModel),
>
    decreases fs,
{
    if fs.len() == 0 {
        Seq::empty()
    } else {
        seq![(fs[0].0, annotate(fs[0].1, field_path(path, fs[0].0), r))] + annotate_fields(
            fs.drop_first(),
            path,
            r,
        )
    }
}

pub proof fn lemma_annotate_list_index(es: Seq<JModel>, path: Seq<char>, r: RegM)
    ensures
        annotate_list(es, path, r).len() == es.len(),
        forall|k: int|
            0 <= k < es.len() ==> annotate_list(es, path, r)[k] == annotate(
                #[trigger] es[k],
                path,
                r,
            ),
    decreases es.len(),
{
    if es.len() > 0 {
        lemma_annotate_list_index(es.drop_first(), path, r);
        assert forall|k: int| 0 <= k < es.len() implies annotate_list(es, path, r)[k] == annotate(
            es[k],
            path,
            r,
        ) by {
            if k > 0 {
                assert(es.drop_first()[k - 1] == es[k]);
            }
        }
    }
}

pub proof fn lemma_annotate_fields_index(fs: Seq<(Seq<char>, JModel)>, path: Seq<char>, r: RegM)
    ensures
        annotate_fields(fs, path, r).len() == fs.len(),
        forall|k: int|
            0 <= k < fs.len() ==> annotate_fields(fs, path, r)[k] == (
                (#[trigger] fs[k]).0,
                annotate(fs[k].1, field_path(path, fs[k].0), r),
            ),
    decreases fs.len(),
{
    if fs.len() > 0 {
        lemma_annotate_fields_index(fs.drop_first(), path, r);
        assert forall|k: int| 0 <= k < fs.len() implies annotate_fields(fs, path, r)[k] == (
            (#[trigger] fs[k]).0,
            annotate(fs[k].1, field_path(path, fs[k].0), r),
        ) by {
            if k > 0 {
                assert(fs.drop_first()[k - 1] == fs[k]);
            }
        }
    }
}

pub proof fn lemma_annotate_fields_pairs(fs: Seq<(Seq<char>, JModel)>, path: Seq<char>, r: RegM)
    ensures
        pairs_of_fields(annotate_fields(fs, path, r)) == pairs_of_fields(fs),
        distinct_names(annotate_fields(fs, path, r)) == distinct_names(fs),
{
    lemma_annotate_fields_index(fs, path, r);
    assert(pairs_of_fields(annotate_fields(fs, path, r)) =~= pairs_of_fields(fs));
    let af = annotate_fields(fs, path, r);
    assert forall|i: int, j: int| 0 <= i < j < fs.len() implies (af[i].0 == af[j].0) == (
    fs[i].0 == fs[j].0) by {
        assert(af[i].0 == fs[i].0);
        assert(af[j].0 == fs[j].0);
    }
}

/// A tree is covered by a registry when every object node's path has an
/// entry, the entry holds the object's shape, and the node's id is the
/// shape's first position there.
pub open spec fn covered(m: JModel, path: Seq<char>, r: RegM) -> bool
    decreases m,
{
    match m {
        JModel::Arr(es) => covered_list(es, elem_path(path), r),
        JModel::Obj(ind, fs) => {
            let sh = shape_of_fields(fs);
            let entry = entry_shapes_at(r, path);
            &&& distinct_names(fs)
            &&& reg_idx(r, path) < r.len()
            &&& shape_idx(entry, sh) < entry.len()
            &&& ind == Some(shape_idx(entry, sh))
            &&& covered_fields(fs, path, r)
        },
        _ => true,
    }
}

pub open spec fn covered_list(es: Seq<JModel>, path: Seq<char>, r: RegM) -> bool
    decreases es,
{
    if es.len() == 0 {
        true
    } else {
        covered(es[0], path, r) && covered_list(es.drop_first(), path, r)
    }
}

pub open spec fn covered_fields(fs: Seq<(Seq<char>, JModel)>, path: Seq<char>, r: RegM) -> bool
    decreases fs,
{
    if fs.len() == 0 {
        true
    } else {
        covered(fs[0].1, field_path(path, fs[0].0), r) && covered_fields(fs.drop_first(), path, r)
    }
}

pub proof fn lemma_covered_list_index(es: Seq<JModel>, path: Seq<char>, r: RegM)
    ensures
        covered_list(es, path, r) <==> (forall|k: int|
            0 <= k < es.len() ==> covered(#[trigger] es[k], path, r)),
    decreases es.len(),
{
    if es.len() > 0 {
        lemma_covered_list_index(es.drop_first(), path, r);
        assert forall|k: int| 0 <= k < es.len() && covered_list(es, path, r) implies covered(
            #[trigger] es[k],
            path,
            r,
        ) by {
            if k > 0 {
                assert(es.drop_first()[k - 1] == es[k]);
            }
        }
        if forall|k: int| 0 <= k < es.len() ==> covered(#[trigger] es[k], path, r) {
            assert forall|k: int| 0 <= k < es.drop_first().len() implies covered(
                #[trigger] es.drop_first()[k],
                path,
                r,
            ) by {
                assert(es.drop_first()[k] == es[k + 1]);
            }
        }
    }
}

pub proof fn lemma_covered_fields_index(fs: Seq<(Seq<char>, JModel)>, path: Seq<char>, r: RegM)
    ensures
        covered_fields(fs, path, r) <==> (forall|k: int|
            0 <= k < fs.len() ==> covered(
                (#[trigger] fs[k]).1,
                field_path(path, fs[k].0),
                r,
            )),
    decreases fs.len(),
{
    if fs.len() > 0 {
        lemma_covered_fields_index(fs.drop_first(), path, r);
        assert forall|k: int| 0 <= k < fs.len() && covered_fields(fs, path, r) implies covered(
            (#[trigger] fs[k]).1,
            field_path(path, fs[k].0),
            r,
        ) by {
            if k > 0 {
                assert(fs.drop_first()[k - 1] == fs[k]);
            }
        }
        if forall|k: int|
            0 <= k < fs.len() ==> covered((#[trigger] fs[k]).1, field_path(path, fs[k].0), r) {
            assert forall|k: int| 0 <= k < fs.drop_first().len() implies covered(
                (#[trigger] fs.drop_first()[k]).1,
                field_path(path, fs.drop_first()[k].0),
                r,
            ) by {
                assert(fs.drop_first()[k] == fs[k + 1]);
            }
        }
    }
}

/// A shape's first position in an entry does not move when the entry grows.
pub proof fn lemma_shape_idx_prefix(e1: Seq<ShapeM>, e2: Seq<ShapeM>, sh: ShapeM)
    requires
        e1.is_prefix_of(e2),
        shape_idx(e1, sh) < e1.len(),
    ensures
        shape_idx(e2, sh) == shape_idx(e1, sh),
{
    lemma_shape_idx(e1, sh);
    let i = shape_idx(e1, sh);
    assert forall|k: int| 0 <= k < i implies #[trigger] e2[k] != sh by {
        assert(e2[k] == e1[k]);
    }
    assert(e2[i] == e1[i]);
    lemma_shape_idx_is(e2, sh, i);
}

/// Coverage survives registry growth: entries only gain shapes at the end.
pub proof fn lemma_covered_extends(m: JModel, path: Seq<char>, r1: RegM, r2: RegM)
    requires
        covered(m, path, r1),
        reg_extends(r1, r2),
    ensures
        covered(m, path, r2),
    decreases m,
{
    match m {
        JModel::Arr(es) => {
            lemma_covered_list_extends(es, elem_path(path), r1, r2);
        },
        JModel::Obj(ind, fs) => {
            lemma_reg_idx(r1, path);
            lemma_reg_idx(r2, path);
            lemma_reg_idx_extends(r1, r2, path);
            let i = reg_idx(r1, path);
            assert(reg_idx(r2, path) == i);
            assert(r1[i].1.is_prefix_of(r2[i].1));
            lemma_shape_idx_prefix(r1[i].1, r2[i].1, shape_of_fields(fs));
            lemma_covered_fields_extends(fs, path, r1, r2);
        },
        _ => {},
    }
}

pub proof fn lemma_covered_list_extends(es: Seq<JModel>, path: Seq<char>, r1: RegM, r2: RegM)
    requires
        covered_list(es, path, r1),
        reg_extends(r1, r2),
    ensures
        covered_list(es, path, r2),
    decreases es,
{
    if es.len() > 0 {
        lemma_covered_extends(es[0], path, r1, r2);
        lemma_covered_list_extends(es.drop_first(), path, r1, r2);
    }
}

pub proof fn lemma_covered_fields_extends(
    fs: Seq<(Seq<char>, JModel)>,
    path: Seq<char>,
    r1: RegM,
    r2: RegM,
)
    requires
        covered_fields(fs, path, r1),
        reg_extends(r1, r2),
    ensures
        covered_fields(fs, path, r2),
    decreases fs,
{
    if fs.len() > 0 {
        lemma_covered_extends(fs[0].1, field_path(path, fs[0].0), r1, r2);
        lemma_covered_fields_extends(fs.drop_first(), path, r1, r2);
    }
}

/// The annotation of a tree does not change when the registry grows, as long
/// as the smaller registry already covered the annotated tree.
pub proof fn lemma_annotate_extends(m: JModel, path: Seq<char>, r1: RegM, r2: RegM)
    requires
        covered(annotate(m, path, r1), path, r1),
        reg_extends(r1, r2),
    ensures
        annotate(m, path, r2) == annotate(m, path, r1),
    decreases m,
{
    match m {
        JModel::Arr(es) => {
            lemma_annotate_list_extends(es, elem_path(path), r1, r2);
        },
        JModel::Obj(ind, fs) => {
            lemma_annotate_fields_pairs(fs, path, r1);
            lemma_reg_idx(r1, path);
            lemma_reg_idx(r2, path);
            lemma_reg_idx_extends(r1, r2, path);
            let i = reg_idx(r1, path);
            assert(reg_idx(r2, path) == i);
            lemma_shape_idx_prefix(
                r1[i].1,
                r2[i].1,
                shape_of_fields(annotate_fields(fs, path, r1)),
            );
            assert(shape_of_fields(annotate_fields(fs, path, r1)) == shape_of_fields(fs));
            lemma_annotate_fields_extends(fs, path, r1, r2);
        },
        _ => {},
    }
}

pub proof fn lemma_annotate_list_extends(es: Seq<JModel>, path: Seq<char>, r1: RegM, r2: RegM)
    requires
        covered_list(annotate_list(es, path, r1), path, r1),
        reg_extends(r1, r2),
    ensures
        annotate_list(es, path, r2) == annotate_list(es, path, r1),
    decreases es,
{
    if es.len() > 0 {
        assert(annotate_list(es, path, r1)[0] == annotate(es[0], path, r1));
        assert(annotate_list(es, path, r1).drop_first() =~= annotate_list(
            es.drop_first(),
            path,
            r1,
        ));
        lemma_annotate_extends(es[0], path, r1, r2);
        lemma_annotate_list_extends(es.drop_first(), path, r1, r2);
        assert(annotate_list(es, path, r2) =~= annotate_list(es, path, r1));
    }
}

pub proof fn lemma_annotate_fields_extends(
    fs: Seq<(Seq<char>, JModel)>,
    path: Seq<char>,
    r1: RegM,
    r2: RegM,
)
    requires
        covered_fields(annotate_fields(fs, path, r1), path, r1),
        reg_extends(r1, r2),
    ensures
        annotate_fields(fs, path, r2) == annotate_fields(fs, path, r1),
    decreases fs,
{
    if fs.len() > 0 {
        assert(annotate_fields(fs, path, r1)[0] == (
            fs[0].0,
            annotate(fs[0].1, field_path(path, fs[0].0), r1),
        ));
        assert(annotate_fields(fs, path, r1).drop_first() =~= annotate_fields(
            fs.drop_first(),
            path,
            r1,
        ));
        lemma_annotate_extends(fs[0].1, field_path(path, fs[0].0), r1, r2);
        lemma_annotate_fields_extends(fs.drop_first(), path, r1, r2);
        assert(annotate_fields(fs, path, r2) =~= annotate_fields(fs, path, r1));
    }
}

/// The depth of a list bounds each element's depth.
pub proof fn lemma_depth_list_ge(es: Seq<JModel>, k: int)
    requires
        0 <= k < es.len(),
    ensures
        depth_of_list(es) >= depth(es[k]),
    decreases es.len(),
{
    if k > 0 {
        lemma_depth_list_ge(es.drop_first(), k - 1);
        assert(es.drop_first()[k - 1] == es[k]);
    }
}

pub proof fn lemma_depth_fields_ge(fs: Seq<(Seq<char>, JModel)>, k: int)
    requires
        0 <= k < fs.len(),
    ensures
        depth_of_fields(fs) >= depth(fs[k].1),
    decreases fs.len(),
{
    if k > 0 {
        lemma_depth_fields_ge(fs.drop_first(), k - 1);
        assert(fs.drop_first()[k - 1] == fs[k]);
    }
}

/// The depth of a list is at most a bound when every element's depth is.
pub proof fn lemma_depth_list_le(es: Seq<JModel>, d: nat)
    requires
        forall|k: int| 0 <= k < es.len() ==> depth(#[trigger] es[k]) <= d,
    ensures
        depth_of_list(es) <= d,
    decreases es.len(),
{
    if es.len() > 0 {
        assert forall|k: int| 0 <= k < es.drop_first().len() implies depth(
            #[trigger] es.drop_first()[k],
        ) <= d by {
            assert(es.drop_first()[k] == es[k + 1]);
        }
        lemma_depth_list_le(es.drop_first(), d);
    }
}

pub proof fn lemma_depth_fields_le(fs: Seq<(Seq<char>, JModel)>, d: nat)
    requires
        forall|k: int| 0 <= k < fs.len() ==> depth((#[trigger] fs[k]).1) <= d,
    ensures
        depth_of_fields(fs) <= d,
    decreases fs.len(),
{
    if fs.len() > 0 {
        assert forall|k: int| 0 <= k < fs.drop_first().len() implies depth(
            (#[trigger] fs.drop_first()[k]).1,
        ) <= d by {
            assert(fs.drop_first()[k] == fs[k + 1]);
        }
        lemma_depth_fields_le(fs.drop_first(), d);
    }
}

} // verus!
