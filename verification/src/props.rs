use vstd::prelude::*;
use crate::encode::{field_idx, field_lookup, lemma_field_idx, lemma_fields_in_shape,
    lemma_spec_encode_obj_index, spec_encode, spec_encode_list, spec_encode_obj, CVal};
use crate::index::{entry_at_path, index_of_reg, ix_idx, lemma_ix_idx, lemma_ix_idx_is,
    names_of_shape, names_of_shapes, paths_of, published_index};
use crate::decode::{spec_decode, spec_decode_fields, spec_decode_list, DecodeError};
use crate::numeral::{dec_seq, lemma_dec_inj};
use crate::registry::{entry_shapes_at, lemma_reg_idx, lemma_shape_idx, reg_idx, shape_idx,
    wf_reg, RegM, ShapeM, Registry};
use crate::value::{distinct_names, equiv, kind_of_model, JModel};
use crate::walk::{covered, covered_list, elem_path, field_path,
    lemma_covered_fields_index, shape_of_fields};

verus! {

/// No array of the document sits at a path that also recorded object shapes.
/// Where an array and an object share one path, the compact form of the array
/// is indistinguishable from an encoded object, so decoding cannot restore
/// it; every document that never mixes the two at one path satisfies this.
pub open spec fn arrays_clear(m: JModel, path: Seq<char>, r: RegM) -> bool
    decreases m,
{
    match m {
        JModel::Arr(es) => reg_idx(r, path) == r.len() && arrays_clear_list(
            es,
            elem_path(path),
            r,
        ),
        JModel::Obj(_, fs) => arrays_clear_fields(fs, path, r),
        _ => true,
    }
}

pub open spec fn arrays_clear_list(es: Seq<JModel>, path: Seq<char>, r: RegM) -> bool
    decreases es,
{
    if es.len() == 0 {
        true
    } else {
        arrays_clear(es[0], path, r) && arrays_clear_list(es.drop_first(), path, r)
    }
}

pub open spec fn arrays_clear_fields(fs: Seq<(Seq<char>, JModel)>, path: Seq<char>, r: RegM) -> bool
    decreases fs,
{
    if fs.len() == 0 {
        true
    } else {
        arrays_clear(fs[0].1, field_path(path, fs[0].0), r) && arrays_clear_fields(
            fs.drop_first(),
            path,
            r,
        )
    }
}

pub proof fn lemma_arrays_clear_list_index(es: Seq<JModel>, path: Seq<char>, r: RegM)
    ensures
        arrays_clear_list(es, path, r) <==> (forall|k: int|
            0 <= k < es.len() ==> arrays_clear(#[trigger] es[k], path, r)),
    decreases es.len(),
{
    if es.len() > 0 {
        lemma_arrays_clear_list_index(es.drop_first(), path, r);
        assert forall|k: int|
            0 <= k < es.len() && arrays_clear_list(es, path, r) implies arrays_clear(
            #[trigger] es[k],
            path,
            r,
        ) by {
            if k > 0 {
                assert(es.drop_first()[k - 1] == es[k]);
            }
        }
        if forall|k: int| 0 <= k < es.len() ==> arrays_clear(#[trigger] es[k], path, r) {
            assert forall|k: int| 0 <= k < es.drop_first().len() implies arrays_clear(
                #[trigger] es.drop_first()[k],
                path,
                r,
            ) by {
                assert(es.drop_first()[k] == es[k + 1]);
            }
        }
    }
}

pub proof fn lemma_arrays_clear_fields_index(
    fs: Seq<(Seq<char>, JModel)>,
    path: Seq<char>,
    r: RegM,
)
    ensures
        arrays_clear_fields(fs, path, r) <==> (forall|k: int|
            0 <= k < fs.len() ==> arrays_clear(
                (#[trigger] fs[k]).1,
                field_path(path, fs[k].0),
                r,
            )),
    decreases fs.len(),
{
    if fs.len() > 0 {
        lemma_arrays_clear_fields_index(fs.drop_first(), path, r);
        assert forall|k: int|
            0 <= k < fs.len() && arrays_clear_fields(fs, path, r) implies arrays_clear(
            (#[trigger] fs[k]).1,
            field_path(path, fs[k].0),
            r,
        ) by {
            if k > 0 {
                assert(fs.drop_first()[k - 1] == fs[k]);
            }
        }
        if forall|k: int|
            0 <= k < fs.len() ==> arrays_clear((#[trigger] fs[k]).1, field_path(path, fs[k].0), r) {
            assert forall|k: int| 0 <= k < fs.drop_first().len() implies arrays_clear(
                (#[trigger] fs.drop_first()[k]).1,
                field_path(path, fs.drop_first()[k].0),
                r,
            ) by {
                assert(fs.drop_first()[k] == fs[k + 1]);
            }
        }
    }
}

/// Every entry of a registry built by this library fits in memory.
pub open spec fn reg_bounded(r: RegM) -> bool {
    forall|k: int| 0 <= k < r.len() ==> (#[trigger] r[k]).1.len() <= usize::MAX
}

pub proof fn lemma_registry_bounded(reg: &Registry)
    ensures
        reg_bounded(reg.model()),
{
    assert forall|k: int| 0 <= k < reg.model().len() implies (#[trigger] reg.model()[k]).1.len()
        <= usize::MAX by {
        assert(reg.model()[k].1 == crate::registry::shapes_model(reg.entries@[k].1@));
        assert(reg.entries@[k].1.len() == reg.entries@[k].1@.len());
    }
}

/// The index keeps the registry's paths in the registry's order.
pub proof fn lemma_ix_idx_of_reg(r: RegM, path: Seq<char>)
    ensures
        ix_idx(index_of_reg(r), path) == reg_idx(r, path),
{
    let ix = index_of_reg(r);
    lemma_reg_idx(r, path);
    let i = reg_idx(r, path);
    assert forall|k: int| 0 <= k < i implies (#[trigger] ix[k]).0 != path by {
        assert(ix[k].0 == r[k].0);
    }
    if i < r.len() {
        assert(ix[i].0 == r[i].0);
    }
    lemma_ix_idx_is(ix, path, i);
}

/// The published index holds exactly the registry's entries: a path has an
/// entry there exactly when the registry recorded shapes for it, and the
/// entry is the registry's, reduced to field names.
pub proof fn lemma_canonical_lookup(r: RegM, path: Seq<char>)
    requires
        wf_reg(r),
    ensures
        (ix_idx(published_index(r), path) < published_index(r).len()) <==> (reg_idx(r, path)
            < r.len()),
        reg_idx(r, path) < r.len() ==> published_index(r)[ix_idx(published_index(r), path)].1
            == names_of_shapes(entry_shapes_at(r, path)),
{
    broadcast use vstd::seq_lib::group_to_multiset_ensures;

    let ix = index_of_reg(r);
    let sp = paths_of(ix).sort_by(crate::order::lex_leq_fn());
    let cix = published_index(r);
    crate::order::lemma_lex_le_total_ordering();
    paths_of(ix).lemma_sort_by_ensures(crate::order::lex_leq_fn());
    assert(sp.len() == paths_of(ix).len()) by {
        assert(sp.to_multiset().len() == sp.len());
        assert(paths_of(ix).to_multiset().len() == paths_of(ix).len());
    }
    assert(cix.len() == sp.len());
    lemma_reg_idx(r, path);
    lemma_ix_idx_of_reg(r, path);
    lemma_ix_idx(ix, path);
    lemma_ix_idx(cix, path);
    let e = reg_idx(r, path);
    if e < r.len() {
        assert(ix[e].0 == r[e].0);
        assert(paths_of(ix)[e] == path);
        assert(paths_of(ix).contains(path));
        assert(paths_of(ix).to_multiset().contains(path));
        assert(sp.to_multiset().contains(path));
        assert(sp.contains(path));
        let i = choose|i: int| 0 <= i < sp.len() && sp[i] == path;
        assert(cix[i].0 == path);
        assert(ix_idx(cix, path) < cix.len()) by {
            if ix_idx(cix, path) == cix.len() {
                assert((#[trigger] cix[i]).0 != path);
            }
        }
        let k = ix_idx(cix, path);
        assert(cix[k].0 == path);
        assert(cix[k] == (sp[k], entry_at_path(ix, sp[k])));
        assert(sp[k] == path);
        assert(entry_at_path(ix, path) == ix[ix_idx(ix, path)].1);
        assert(ix_idx(ix, path) == e);
        assert(ix[e].1 == names_of_shapes(r[e].1));
        assert(entry_shapes_at(r, path) == r[e].1);
    } else {
        if ix_idx(cix, path) < cix.len() {
            let k = ix_idx(cix, path);
            assert(cix[k].0 == path);
            assert(sp[k] == path);
            assert(sp.contains(path));
            assert(sp.to_multiset().contains(path));
            assert(paths_of(ix).to_multiset().contains(path));
            assert(paths_of(ix).contains(path));
            let j = choose|j: int| 0 <= j < paths_of(ix).len() && paths_of(ix)[j] == path;
            assert(ix[j].0 == path);
            assert(ix_idx(ix, path) == ix.len());
            assert((#[trigger] ix[j]).0 != path);
        }
    }
}

/// Round trip: decoding the encoding of a covered document under the
/// published index restores a document structurally equal to the original:
/// the same values, the same field set in every object, arrays in their
/// order; only object field order may differ.
#[verifier::spinoff_prover]
#[verifier::rlimit(60)]
pub proof fn lemma_round_trip(m: JModel, path: Seq<char>, r: RegM)
    requires
        wf_reg(r),
        reg_bounded(r),
        covered(m, path, r),
        arrays_clear(m, path, r),
    ensures
        spec_decode(spec_encode(m, path, r), published_index(r), path) is Ok,
        equiv(m, spec_decode(spec_encode(m, path, r), published_index(r), path)->Ok_0),
    decreases m, 1int,
{
    let ix = published_index(r);
    match m {
        JModel::Null => {},
        JModel::Bool(_) => {},
        JModel::Num(_) => {},
        JModel::Str(_) => {},
        JModel::Arr(es) => {
            lemma_canonical_lookup(r, path);
            lemma_ix_idx(ix, path);
            assert(ix_idx(ix, path) == ix.len());
            let es2 = spec_encode_list(es, elem_path(path), r);
            lemma_round_trip_list(es, elem_path(path), r);
            let vs = spec_decode_list(es2, ix, elem_path(path))->Ok_0;
            assert(spec_decode(spec_encode(m, path, r), ix, path) == Ok::<JModel, DecodeError>(
                JModel::Arr(vs),
            ));
            assert(equiv(m, JModel::Arr(vs)));
        },
        JModel::Obj(ind, fs) => {
            lemma_canonical_lookup(r, path);
            lemma_reg_idx(r, path);
            let e = reg_idx(r, path);
            let entry = entry_shapes_at(r, path);
            let sh = shape_of_fields(fs);
            let i = shape_idx(entry, sh);
            lemma_shape_idx(entry, sh);
            assert(entry[i] == sh);
            assert(crate::registry::wf_entry(entry));
            assert(crate::registry::wf_shape(sh));
            // the shape's length equals the object's field count
            crate::registry::lemma_field_le_total_ordering();
            broadcast use vstd::seq_lib::group_to_multiset_ensures;

            crate::value::pairs_of_fields(fs).lemma_sort_by_ensures(
                crate::registry::field_leq_fn(),
            );
            assert(sh.to_multiset() == crate::value::pairs_of_fields(fs).to_multiset());
            assert(sh.len() == fs.len()) by {
                assert(sh.to_multiset().len() == sh.len());
                assert(crate::value::pairs_of_fields(fs).to_multiset().len()
                    == crate::value::pairs_of_fields(fs).len());
            }
            lemma_covered_fields_index(fs, path, r);
            lemma_arrays_clear_fields_index(fs, path, r);
            assert forall|j: int| 0 <= j < sh.len() implies field_idx(fs, (#[trigger] sh[j]).0)
                < fs.len() by {
                crate::encode::lemma_shape_names_in_fields(fs, j);
            }
            assert forall|j: int|
                0 <= j < sh.len() implies {
                let t = field_idx(fs, (#[trigger] sh[j]).0);
                covered(fs[t].1, field_path(path, fs[t].0), r) && arrays_clear(
                    fs[t].1,
                    field_path(path, fs[t].0),
                    r,
                ) && fs[t].0 == sh[j].0
            } by {
                lemma_field_idx(fs, sh[j].0);
            }
            lemma_round_trip_fields(sh, fs, path, r);
            let vals = spec_encode_obj(sh, fs, path, r);
            let names = names_of_shape(sh);
            assert(names.len() == sh.len());
            lemma_spec_encode_obj_index(sh, fs, path, r);
            assert(vals.len() == sh.len());
            let gs = spec_decode_fields(names, vals, ix, path)->Ok_0;
            assert(gs.len() == sh.len());
            // the decoder selects the same mapping the encoder used
            lemma_ix_idx(ix, path);
            let ke = ix_idx(ix, path);
            assert(ke < ix.len());
            assert(ix[ke].1 == names_of_shapes(entry));
            assert(ix[ke].1.len() == entry.len());
            assert(ix[ke].1[i] == names_of_shape(entry[i]));
            assert(ix[ke].1[i] == names);
            let decoded = if entry.len() > 1 {
                // the tag selects shape i
                let tagged = seq![CVal::Num(dec_seq(i as nat))] + vals;
                assert(spec_encode(m, path, r) == CVal::Arr(tagged));
                assert(tagged[0] == CVal::Num(dec_seq(i as nat)));
                assert(tagged.drop_first() =~= vals);
                assert(i <= usize::MAX) by {
                    assert(entry.len() <= usize::MAX);
                }
                assert(exists|t: nat| t <= usize::MAX && dec_seq(i as nat) == #[trigger] dec_seq(t)) by {
                    assert(i as nat <= usize::MAX && dec_seq(i as nat) == dec_seq(i as nat));
                }
                let t = choose|t: nat| t <= usize::MAX && dec_seq(i as nat) == #[trigger] dec_seq(t);
                lemma_dec_inj(t, i as nat);
                assert(t == i as nat);
                assert(tagged.len() - 1 == names.len());
                assert(spec_decode(spec_encode(m, path, r), ix, path) == (
                match spec_decode_fields(names, vals, ix, path) {
                    Ok(fs2) => Ok::<JModel, DecodeError>(JModel::Obj(None, fs2)),
                    Err(err) => Err(err),
                }));
                JModel::Obj(None, gs)
            } else {
                assert(i == 0);
                assert(spec_encode(m, path, r) == CVal::Arr(vals));
                assert(ix[ix_idx(ix, path)].1[0] == names);
                JModel::Obj(None, gs)
            };
            assert(spec_decode(spec_encode(m, path, r), ix, path) == Ok::<JModel, DecodeError>(
                decoded,
            ));
            // structural equality of the object
            assert(distinct_names(gs)) by {
                assert forall|a: int, b: int| 0 <= a < b < gs.len() implies (#[trigger] gs[a]).0
                    != (#[trigger] gs[b]).0 by {
                    assert(gs[a].0 == sh[a].0);
                    assert(gs[b].0 == sh[b].0);
                }
            }
            assert forall|t: int| #![trigger fs[t]] 0 <= t < fs.len() implies exists|j: int|
                0 <= j < gs.len() && gs[j].0 == fs[t].0 && equiv(fs[t].1, #[trigger] gs[j].1) by {
                lemma_fields_in_shape(fs, t);
                let j = choose|j: int|
                    0 <= j < sh.len() && #[trigger] sh[j] == (fs[t].0, kind_of_model(fs[t].1));
                assert(gs[j].0 == sh[j].0);
                assert(field_idx(fs, sh[j].0) == t) by {
                    lemma_field_idx(fs, sh[j].0);
                    let ft = field_idx(fs, sh[j].0);
                    assert(ft < fs.len());
                    assert(fs[ft].0 == fs[t].0);
                    if ft < t {
                        assert((#[trigger] fs[ft]).0 != (#[trigger] fs[t]).0);
                    } else if ft > t {
                        assert((#[trigger] fs[t]).0 != (#[trigger] fs[ft]).0);
                    }
                }
                assert(equiv(field_lookup(fs, sh[j].0), gs[j].1));
                assert(field_lookup(fs, sh[j].0) == fs[t].1);
            }
            assert(equiv(m, decoded));
        },
    }
}

/// Annotation only adds shape ids, which structural equality ignores: a tree
/// structurally equal to the annotated document is structurally equal to the
/// document itself.
pub proof fn lemma_equiv_annotate(m: JModel, path: Seq<char>, r: RegM, d: JModel)
    requires
        equiv(crate::walk::annotate(m, path, r), d),
    ensures
        equiv(m, d),
    decreases m,
{
    match m {
        JModel::Arr(es) => {
            let aes = crate::walk::annotate_list(es, elem_path(path), r);
            crate::walk::lemma_annotate_list_index(es, elem_path(path), r);
            match d {
                JModel::Arr(ds) => {
                    assert forall|k: int| 0 <= k < es.len() implies equiv(
                        #[trigger] es[k],
                        ds[k],
                    ) by {
                        assert(equiv(aes[k], ds[k]));
                        assert(aes[k] == crate::walk::annotate(es[k], elem_path(path), r));
                        lemma_equiv_annotate(es[k], elem_path(path), r, ds[k]);
                    }
                },
                _ => {},
            }
        },
        JModel::Obj(ind, fs) => {
            let afs = crate::walk::annotate_fields(fs, path, r);
            crate::walk::lemma_annotate_fields_index(fs, path, r);
            crate::walk::lemma_annotate_fields_pairs(fs, path, r);
            match d {
                JModel::Obj(_, gs) => {
                    assert forall|i: int|
                        #![trigger fs[i]]
                        0 <= i < fs.len() implies exists|j: int|
                        0 <= j < gs.len() && gs[j].0 == fs[i].0 && equiv(
                            fs[i].1,
                            #[trigger] gs[j].1,
                        ) by {
                        assert(afs[i] == (fs[i].0, crate::walk::annotate(
                            fs[i].1,
                            field_path(path, fs[i].0),
                            r,
                        )));
                        let j = choose|j: int|
                            0 <= j < gs.len() && gs[j].0 == afs[i].0 && equiv(
                                afs[i].1,
                                #[trigger] gs[j].1,
                            );
                        lemma_equiv_annotate(fs[i].1, field_path(path, fs[i].0), r, gs[j].1);
                    }
                },
                _ => {},
            }
        },
        _ => {},
    }
}

/// Round trip for a parsed document: decoding the compact form of a parse
/// under its emitted index restores a document structurally equal to the
/// original input, whenever no array of the input sits at a path that also
/// holds objects.
pub proof fn lemma_parse_round_trip(m: JModel, j: crate::structure::Json)
    requires
        j.is_parse_of(m),
        j.wf(),
        reg_bounded(j.reg()),
        arrays_clear(j.root_model(), Seq::empty(), j.reg()),
    ensures
        spec_decode(
            spec_encode(j.root_model(), Seq::empty(), j.reg()),
            published_index(j.reg()),
            Seq::empty(),
        ) is Ok,
        equiv(
            m,
            spec_decode(
                spec_encode(j.root_model(), Seq::empty(), j.reg()),
                published_index(j.reg()),
                Seq::empty(),
            )->Ok_0,
        ),
{
    lemma_round_trip(j.root_model(), Seq::empty(), j.reg());
    let d = spec_decode(
        spec_encode(j.root_model(), Seq::empty(), j.reg()),
        published_index(j.reg()),
        Seq::empty(),
    )->Ok_0;
    lemma_equiv_annotate(m, Seq::empty(), j.reg(), d);
}

/// Shape stability: the parse of a document is a function of the document
/// alone, so parsing it twice gives the same registry, the same shape id on
/// every object, and identical compact and index text.
pub proof fn lemma_shape_stability(j1: crate::structure::Json, j2: crate::structure::Json, m: JModel)
    requires
        j1.is_parse_of(m),
        j2.is_parse_of(m),
    ensures
        j1.reg() == j2.reg(),
        j1.root_model() == j2.root_model(),
        crate::render::spec_render(spec_encode(j1.root_model(), Seq::empty(), j1.reg()))
            == crate::render::spec_render(spec_encode(j2.root_model(), Seq::empty(), j2.reg())),
        crate::index::spec_render_index(published_index(j1.reg()))
            == crate::index::spec_render_index(published_index(j2.reg())),
{
}

/// Path scoping: two objects at one path whose (name, kind) field sets agree
/// as sets, whatever order the fields came in, carry the same shape id.
pub proof fn lemma_path_scoping(
    ind1: Option<int>,
    fs1: Seq<(Seq<char>, JModel)>,
    ind2: Option<int>,
    fs2: Seq<(Seq<char>, JModel)>,
    path: Seq<char>,
    r: RegM,
)
    requires
        covered(JModel::Obj(ind1, fs1), path, r),
        covered(JModel::Obj(ind2, fs2), path, r),
        crate::value::pairs_of_fields(fs1).to_multiset() == crate::value::pairs_of_fields(
            fs2,
        ).to_multiset(),
    ensures
        ind1 == ind2,
{
    crate::registry::lemma_field_le_total_ordering();
    let p1 = crate::value::pairs_of_fields(fs1);
    let p2 = crate::value::pairs_of_fields(fs2);
    p1.lemma_sort_by_ensures(crate::registry::field_leq_fn());
    p2.lemma_sort_by_ensures(crate::registry::field_leq_fn());
    vstd::seq_lib::lemma_sorted_unique(
        p1.sort_by(crate::registry::field_leq_fn()),
        p2.sort_by(crate::registry::field_leq_fn()),
        crate::registry::field_leq_fn(),
    );
    assert(shape_of_fields(fs1) == shape_of_fields(fs2));
}

/// Single-shape omission: an object at a path that recorded exactly one shape
/// is encoded without a tag, and the index records the bare mapping for that
/// path, not a sequence.
pub proof fn lemma_single_shape_omission(
    ind: Option<int>,
    fs: Seq<(Seq<char>, JModel)>,
    path: Seq<char>,
    r: RegM,
)
    requires
        wf_reg(r),
        covered(JModel::Obj(ind, fs), path, r),
        entry_shapes_at(r, path).len() == 1,
    ensures
        ind == Some(0int),
        spec_encode(JModel::Obj(ind, fs), path, r) == CVal::Arr(
            spec_encode_obj(shape_of_fields(fs), fs, path, r),
        ),
        ix_idx(published_index(r), path) < published_index(r).len(),
        crate::index::entry_text(
            published_index(r)[ix_idx(published_index(r), path)].1,
        ) == crate::index::mapping_text(names_of_shape(entry_shapes_at(r, path)[0])),
{
    let entry = entry_shapes_at(r, path);
    let sh = shape_of_fields(fs);
    lemma_shape_idx(entry, sh);
    lemma_reg_idx(r, path);
    lemma_canonical_lookup(r, path);
    assert(shape_idx(entry, sh) == 0);
    assert(entry[0] == sh);
    assert(published_index(r)[ix_idx(published_index(r), path)].1 == names_of_shapes(entry));
    assert(names_of_shapes(entry).len() == 1);
    assert(names_of_shapes(entry)[0] == names_of_shape(entry[0]));
}

/// Multi-shape tagging: where a path recorded two or more shapes, every
/// object encoded there carries a leading integer tag, the tag is a valid
/// position in the index's sequence for that path, and it selects exactly the
/// mapping of the object's own shape.
pub proof fn lemma_multi_shape_tagging(
    ind: Option<int>,
    fs: Seq<(Seq<char>, JModel)>,
    path: Seq<char>,
    r: RegM,
)
    requires
        wf_reg(r),
        covered(JModel::Obj(ind, fs), path, r),
        entry_shapes_at(r, path).len() > 1,
    ensures
        ind matches Some(i) && 0 <= i < entry_shapes_at(r, path).len(),
        spec_encode(JModel::Obj(ind, fs), path, r) == CVal::Arr(
            seq![CVal::Num(dec_seq(ind->0 as nat))] + spec_encode_obj(
                shape_of_fields(fs),
                fs,
                path,
                r,
            ),
        ),
        ix_idx(published_index(r), path) < published_index(r).len(),
        published_index(r)[ix_idx(published_index(r), path)].1.len() == entry_shapes_at(
            r,
            path,
        ).len(),
        published_index(r)[ix_idx(published_index(r), path)].1[ind->0] == names_of_shape(
            shape_of_fields(fs),
        ),
{
    let entry = entry_shapes_at(r, path);
    let sh = shape_of_fields(fs);
    lemma_shape_idx(entry, sh);
    lemma_reg_idx(r, path);
    lemma_canonical_lookup(r, path);
    let i = shape_idx(entry, sh);
    assert(entry[i] == sh);
    assert(published_index(r)[ix_idx(published_index(r), path)].1 == names_of_shapes(entry));
    assert(names_of_shapes(entry)[i] == names_of_shape(entry[i]));
}

pub proof fn lemma_round_trip_list(es: Seq<JModel>, path: Seq<char>, r: RegM)
    requires
        wf_reg(r),
        reg_bounded(r),
        covered_list(es, path, r),
        arrays_clear_list(es, path, r),
    ensures
        spec_decode_list(spec_encode_list(es, path, r), published_index(r), path) is Ok,
        ({
            let vs = spec_decode_list(spec_encode_list(es, path, r), published_index(r), path)->Ok_0;
            &&& vs.len() == es.len()
            &&& forall|k: int| 0 <= k < es.len() ==> equiv(#[trigger] es[k], vs[k])
        }),
    decreases es, 0int,
{
    let ix = published_index(r);
    if es.len() == 0 {
        assert(spec_encode_list(es, path, r) =~= Seq::<CVal>::empty());
    } else {
        lemma_round_trip(es[0], path, r);
        lemma_round_trip_list(es.drop_first(), path, r);
        let enc = spec_encode_list(es, path, r);
        assert(enc == seq![spec_encode(es[0], path, r)] + spec_encode_list(
            es.drop_first(),
            path,
            r,
        ));
        assert(enc[0] == spec_encode(es[0], path, r));
        assert(enc.drop_first() =~= spec_encode_list(es.drop_first(), path, r));
        let v0 = spec_decode(enc[0], ix, path)->Ok_0;
        let rest = spec_decode_list(enc.drop_first(), ix, path)->Ok_0;
        assert(spec_decode_list(enc, ix, path) == Ok::<Seq<JModel>, DecodeError>(
            seq![v0] + rest,
        ));
        let vs = seq![v0] + rest;
        assert forall|k: int| 0 <= k < es.len() implies equiv(#[trigger] es[k], vs[k]) by {
            if k > 0 {
                assert(es.drop_first()[k - 1] == es[k]);
                assert(vs[k] == rest[k - 1]);
            }
        }
    }
}

pub proof fn lemma_round_trip_fields(
    sh: ShapeM,
    fs: Seq<(Seq<char>, JModel)>,
    path: Seq<char>,
    r: RegM,
)
    requires
        wf_reg(r),
        reg_bounded(r),
        forall|j: int|
            0 <= j < sh.len() ==> {
                let t = field_idx(fs, (#[trigger] sh[j]).0);
                &&& t < fs.len()
                &&& covered(fs[t].1, field_path(path, fs[t].0), r)
                &&& arrays_clear(fs[t].1, field_path(path, fs[t].0), r)
                &&& fs[t].0 == sh[j].0
            },
    ensures
        spec_decode_fields(
            names_of_shape(sh),
            spec_encode_obj(sh, fs, path, r),
            published_index(r),
            path,
        ) is Ok,
        ({
            let gs = spec_decode_fields(
                names_of_shape(sh),
                spec_encode_obj(sh, fs, path, r),
                published_index(r),
                path,
            )->Ok_0;
            &&& gs.len() == sh.len()
            &&& forall|j: int|
                0 <= j < sh.len() ==> (#[trigger] gs[j]).0 == sh[j].0 && equiv(
                    field_lookup(fs, sh[j].0),
                    gs[j].1,
                )
        }),
    decreases fs, sh.len(),
{
    let ix = published_index(r);
    let names = names_of_shape(sh);
    let enc = spec_encode_obj(sh, fs, path, r);
    if sh.len() == 0 {
        assert(enc =~= Seq::<CVal>::empty());
        assert(names =~= Seq::<Seq<char>>::empty());
    } else {
        let t0 = field_idx(fs, sh[0].0);
        lemma_field_idx(fs, sh[0].0);
        assert(0 <= t0 < fs.len());
        assert(fs[t0].0 == sh[0].0);
        assert(decreases_to!(fs => fs[t0].1)) by {
            assert(decreases_to!(fs => fs[t0]));
        }
        lemma_round_trip(fs[t0].1, field_path(path, fs[t0].0), r);
        assert forall|j: int|
            0 <= j < sh.drop_first().len() implies {
            let t = field_idx(fs, (#[trigger] sh.drop_first()[j]).0);
            &&& t < fs.len()
            &&& covered(fs[t].1, field_path(path, fs[t].0), r)
            &&& arrays_clear(fs[t].1, field_path(path, fs[t].0), r)
            &&& fs[t].0 == sh.drop_first()[j].0
        } by {
            assert(sh.drop_first()[j] == sh[j + 1]);
        }
        lemma_round_trip_fields(sh.drop_first(), fs, path, r);
        assert(enc == seq![spec_encode(fs[t0].1, field_path(path, sh[0].0), r)]
            + spec_encode_obj(sh.drop_first(), fs, path, r));
        assert(enc[0] == spec_encode(fs[t0].1, field_path(path, sh[0].0), r));
        assert(enc.drop_first() =~= spec_encode_obj(sh.drop_first(), fs, path, r));
        assert(names[0] == sh[0].0);
        assert(names.drop_first() =~= names_of_shape(sh.drop_first()));
        assert(field_path(path, names[0]) == field_path(path, fs[t0].0));
        let v0 = spec_decode(enc[0], ix, field_path(path, names[0]))->Ok_0;
        let rest = spec_decode_fields(names.drop_first(), enc.drop_first(), ix, path)->Ok_0;
        assert(spec_decode_fields(names, enc, ix, path) == Ok::<
            Seq<(Seq<char>, JModel)>,
            DecodeError,
        >(seq![(names[0], v0)] + rest));
        let gs = seq![(names[0], v0)] + rest;
        assert forall|j: int| 0 <= j < sh.len() implies (#[trigger] gs[j]).0 == sh[j].0 && equiv(
            field_lookup(fs, sh[j].0),
            gs[j].1,
        ) by {
            if j == 0 {
                assert(gs[0] == (names[0], v0));
                assert(field_lookup(fs, sh[0].0) == fs[t0].1);
            } else {
                assert(sh.drop_first()[j - 1] == sh[j]);
                assert(gs[j] == rest[j - 1]);
            }
        }
    }
}

} // verus!
