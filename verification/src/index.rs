use vstd::prelude::*;
use vstd::relations::{sorted_by, total_ordering};
use vstd::seq_lib::lemma_sorted_unique;
use vstd::string::StringExecFns;
use crate::numeral::{dec_seq, dec_string};
use crate::order::{lemma_lex_le_total_ordering, lex_le, lex_leq_fn, str_le};
use crate::registry::{wf_reg, FieldSig, RegM, Registry, ShapeM, ShapesM};
use crate::render::json_quoted;

verus! {

/// The ordered field names of one shape.
pub type NamesM = Seq<Seq<char>>;

/// The index document, mathematically: per path, the ordered field names of
/// each of the path's shapes, in shape id order.
pub type IndexM = Seq<(Seq<char>, Seq<NamesM>)>;

pub open spec fn names_of_shape(sh: ShapeM) -> NamesM {
    sh.map_values(|p: FieldSig| p.0)
}

pub open spec fn names_of_shapes(ss: ShapesM) -> Seq<NamesM> {
    ss.map_values(|sh: ShapeM| names_of_shape(sh))
}

/// The registry with the kinds dropped, keeping only each shape's field
/// order, its entries still in first-discovery order.
pub open spec fn index_of_reg(r: RegM) -> IndexM {
    r.map_values(|e: (Seq<char>, ShapesM)| (e.0, names_of_shapes(e.1)))
}

/// The first position of a path in an index (the length when absent).
pub open spec fn ix_idx(ix: IndexM, path: Seq<char>) -> int
    decreases ix.len(),
{
    if ix.len() == 0 {
        0
    } else if ix[0].0 == path {
        0
    } else {
        1 + ix_idx(ix.drop_first(), path)
    }
}

pub proof fn lemma_ix_idx(ix: IndexM, path: Seq<char>)
    ensures
        0 <= ix_idx(ix, path) <= ix.len(),
        ix_idx(ix, path) < ix.len() ==> ix[ix_idx(ix, path)].0 == path,
        forall|k: int| 0 <= k < ix_idx(ix, path) ==> (#[trigger] ix[k]).0 != path,
    decreases ix.len(),
{
    if ix.len() > 0 && ix[0].0 != path {
        lemma_ix_idx(ix.drop_first(), path);
        assert forall|k: int| 0 <= k < ix_idx(ix, path) implies (#[trigger] ix[k]).0 != path by {
            if k > 0 {
                assert(ix.drop_first()[k - 1] == ix[k]);
            }
        }
    }
}

pub proof fn lemma_ix_idx_is(ix: IndexM, path: Seq<char>, i: int)
    requires
        0 <= i <= ix.len(),
        forall|k: int| 0 <= k < i ==> (#[trigger] ix[k]).0 != path,
        i < ix.len() ==> ix[i].0 == path,
    ensures
        ix_idx(ix, path) == i,
    decreases ix.len(),
{
    if ix.len() > 0 {
        if i == 0 {
        } else {
            assert(ix[0].0 != path);
            assert forall|k: int| 0 <= k < i - 1 implies (#[trigger] ix.drop_first()[k]).0
                != path by {
                assert(ix.drop_first()[k] == ix[k + 1]);
            }
            assert(i - 1 < ix.drop_first().len() ==> ix.drop_first()[i - 1].0 == path);
            lemma_ix_idx_is(ix.drop_first(), path, i - 1);
        }
    }
}

pub open spec fn paths_of(ix: IndexM) -> Seq<Seq<char>> {
    ix.map_values(|e: (Seq<char>, Seq<NamesM>)| e.0)
}

/// The entry an index holds for a path (the empty list when it has none).
pub open spec fn entry_at_path(ix: IndexM, p: Seq<char>) -> Seq<NamesM> {
    if ix_idx(ix, p) < ix.len() {
        ix[ix_idx(ix, p)].1
    } else {
        Seq::empty()
    }
}

/// An index in canonical key order: the same entries, the paths sorted
/// lexicographically, so that the order in which a source document happened
/// to present its fields cannot show in the published document.
pub open spec fn canonical_index(ix: IndexM) -> IndexM {
    let sp = paths_of(ix).sort_by(lex_leq_fn());
    Seq::new(sp.len(), |i: int| (sp[i], entry_at_path(ix, sp[i])))
}

/// What the index emitter publishes for a registry: its entries, reduced to
/// field names, keyed by path in lexicographic order.
pub open spec fn published_index(r: RegM) -> IndexM {
    canonical_index(index_of_reg(r))
}

/// The index document as a value: per path, each shape's field names in
/// position order.
#[derive(Debug)]
pub struct Index {
    pub entries: Vec<(String, Vec<Vec<String>>)>,
}

pub open spec fn names_model(names: Seq<String>) -> NamesM {
    names.map_values(|n: String| n@)
}

pub open spec fn shapes_names_model(ss: Seq<Vec<String>>) -> Seq<NamesM> {
    ss.map_values(|names: Vec<String>| names_model(names@))
}

impl Index {
    pub open spec fn model(&self) -> IndexM {
        self.entries@.map_values(
            |e: (String, Vec<Vec<String>>)| (e.0@, shapes_names_model(e.1@)),
        )
    }
}

pub open spec fn entries_names_model(s: Seq<(String, Vec<Vec<String>>)>) -> IndexM {
    s.map_values(|e: (String, Vec<Vec<String>>)| (e.0@, shapes_names_model(e.1@)))
}

/// Derives the index from the registry: each shape reduced to its ordered
/// field names, the entries sorted by path.
pub fn make_index(reg: &Registry) -> (ix: Index)
    requires
        wf_reg(reg.model()),
    ensures
        ix.model() == published_index(reg.model()),
{
    let mut entries: Vec<(String, Vec<Vec<String>>)> = Vec::new();
    let mut i: usize = 0;
    while i < reg.entries.len()
        invariant
            i <= reg.entries.len(),
            entries@.len() == i,
            forall|k: int|
                0 <= k < i ==> (#[trigger] entries@[k]).0@ == reg.model()[k].0
                    && shapes_names_model(entries@[k].1@) == names_of_shapes(reg.model()[k].1),
        decreases reg.entries.len() - i,
    {
        let path = reg.entries[i].0.clone();
        let ghost shapes_m = reg.model()[i as int].1;
        let mut shapes: Vec<Vec<String>> = Vec::new();
        let mut j: usize = 0;
        while j < reg.entries[i].1.len()
            invariant
                i < reg.entries.len(),
                j <= reg.entries[i as int].1.len(),
                shapes_m == reg.model()[i as int].1,
                shapes_m == crate::registry::shapes_model(reg.entries@[i as int].1@),
                shapes_m.len() == reg.entries@[i as int].1@.len(),
                shapes@.len() == j,
                forall|k: int|
                    0 <= k < j ==> names_model((#[trigger] shapes@[k])@) == names_of_shape(
                        shapes_m[k],
                    ),
            decreases reg.entries[i as int].1.len() - j,
        {
            let shape = &reg.entries[i].1[j];
            let ghost sm = shapes_m[j as int];
            let mut names: Vec<String> = Vec::new();
            let mut t: usize = 0;
            while t < shape.fields.len()
                invariant
                    t <= shape.fields.len(),
                    sm == shape.model(),
                    sm.len() == shape.fields@.len(),
                    names@.len() == t,
                    forall|k: int| 0 <= k < t ==> (#[trigger] names@[k])@ == sm[k].0,
                decreases shape.fields.len() - t,
            {
                let n = shape.fields[t].0.clone();
                proof {
                    assert(sm[t as int].0 == shape.fields@[t as int].0@);
                }
                names.push(n);
                t = t + 1;
            }
            proof {
                assert(names_model(names@) =~= names_of_shape(sm));
            }
            shapes.push(names);
            j = j + 1;
        }
        proof {
            assert(shapes_names_model(shapes@) =~= names_of_shapes(shapes_m));
        }
        entries.push((path, shapes));
        i = i + 1;
    }
    proof {
        assert(entries_names_model(entries@) =~~= index_of_reg(reg.model()));
        assert forall|a: int, b: int|
            0 <= a < b < entries_names_model(entries@).len() implies (#[trigger] entries_names_model(
            entries@,
        )[a]).0 != (#[trigger] entries_names_model(entries@)[b]).0 by {
            assert(entries_names_model(entries@)[a].0 == reg.model()[a].0);
            assert(entries_names_model(entries@)[b].0 == reg.model()[b].0);
        }
    }
    let sorted = sort_entries(entries);
    let ix = Index { entries: sorted };
    proof {
        assert(ix.model() =~= entries_names_model(ix.entries@));
    }
    ix
}

/// The position where an entry belongs among already sorted entries: the
/// first one whose path must come after it.
fn entry_pos(out: &Vec<(String, Vec<Vec<String>>)>, path: &String) -> (pos: usize)
    ensures
        pos <= out@.len(),
        forall|k: int|
            0 <= k < pos ==> lex_le((#[trigger] entries_names_model(out@)[k]).0, path@),
        pos < out@.len() ==> !lex_le(entries_names_model(out@)[pos as int].0, path@),
{
    let ghost m = entries_names_model(out@);
    let mut pos: usize = 0;
    while pos < out.len()
        invariant
            pos <= out.len(),
            m == entries_names_model(out@),
            m.len() == out@.len(),
            forall|k: int| 0 <= k < pos ==> lex_le((#[trigger] m[k]).0, path@),
        decreases out.len() - pos,
    {
        proof {
            assert(m[pos as int].0 == out@[pos as int].0@);
        }
        if !str_le(out[pos].0.as_str(), path.as_str()) {
            return pos;
        }
        pos = pos + 1;
    }
    pos
}

/// Reorders index entries into canonical (lexicographic) path order.
fn sort_entries(entries: Vec<(String, Vec<Vec<String>>)>) -> (r: Vec<(String, Vec<Vec<String>>)>)
    requires
        forall|a: int, b: int|
            0 <= a < b < entries_names_model(entries@).len() ==> (
            #[trigger] entries_names_model(entries@)[a]).0 != (#[trigger] entries_names_model(
                entries@,
            )[b]).0,
    ensures
        entries_names_model(r@) == canonical_index(entries_names_model(entries@)),
{
    let ghost orig = entries_names_model(entries@);
    proof {
        lemma_lex_le_total_ordering();
        broadcast use vstd::seq_lib::group_to_multiset_ensures;

        paths_of(orig).lemma_sort_by_ensures(lex_leq_fn());
    }
    let total = entries.len();
    let mut src = entries;
    let mut out: Vec<(String, Vec<Vec<String>>)> = Vec::new();
    let mut t: usize = 0;
    proof {
        assert(total as int == orig.len());
        assert(entries_names_model(src@) =~= orig.skip(0));
        assert(paths_of(orig.take(0)) =~= Seq::<Seq<char>>::empty());
        assert(paths_of(entries_names_model(out@)) =~= Seq::<Seq<char>>::empty());
    }
    while src.len() > 0
        invariant
            total as int == orig.len(),
            t + src@.len() == orig.len(),
            entries_names_model(src@) == orig.skip(t as int),
            total_ordering(lex_leq_fn()),
            sorted_by(paths_of(entries_names_model(out@)), lex_leq_fn()),
            paths_of(entries_names_model(out@)).to_multiset() == paths_of(
                orig.take(t as int),
            ).to_multiset(),
            forall|k: int|
                0 <= k < entries_names_model(out@).len() ==> exists|j: int|
                    0 <= j < orig.len() && #[trigger] entries_names_model(out@)[k] == orig[j],
        decreases src@.len(),
    {
        let ghost m = entries_names_model(out@);
        let e = src.remove(0);
        let ghost em = (e.0@, shapes_names_model(e.1@));
        proof {
            assert(em == orig.skip(t as int)[0]);
            assert(em == orig[t as int]);
            assert(src@.len() + 1 + t == orig.len());
            assert(entries_names_model(src@) =~= orig.skip(t + 1)) by {
                assert forall|k: int|
                    0 <= k < src@.len() implies entries_names_model(src@)[k] == orig.skip(
                    t + 1,
                )[k] by {
                    assert(entries_names_model(src@)[k] == orig.skip(t as int)[k + 1]);
                }
            }
        }
        let pos = entry_pos(&out, &e.0);
        out.insert(pos, e);
        proof {
            broadcast use vstd::seq_lib::group_to_multiset_ensures;

            let leq = lex_leq_fn();
            assert(entries_names_model(out@) =~= m.insert(pos as int, em));
            let m2 = m.insert(pos as int, em);
            assert(paths_of(m2) =~= paths_of(m).insert(pos as int, em.0));
            if pos < m.len() {
                assert(!lex_le(m[pos as int].0, em.0));
                assert(leq(m[pos as int].0, em.0) || leq(em.0, m[pos as int].0));
                assert(leq(em.0, m[pos as int].0));
            }
            let ps = paths_of(m);
            let ps2 = paths_of(m2);
            assert forall|i1: int, i2: int| 0 <= i1 < i2 < ps2.len() implies #[trigger] leq(
                ps2[i1],
                ps2[i2],
            ) by {
                if i1 == pos && i2 > pos {
                    assert(ps2[i2] == ps[i2 - 1]);
                    assert(leq(em.0, ps[pos as int]));
                    if i2 - 1 > pos {
                        assert(leq(ps[pos as int], ps[i2 - 1]));
                    }
                } else if i1 < pos && i2 == pos {
                    assert(ps2[i1] == ps[i1]);
                    assert(leq(ps[i1], em.0));
                } else if i2 < pos {
                    assert(ps2[i1] == ps[i1] && ps2[i2] == ps[i2]);
                } else if i1 > pos {
                    assert(ps2[i1] == ps[i1 - 1] && ps2[i2] == ps[i2 - 1]);
                } else {
                    assert(i1 < pos && i2 > pos);
                    assert(ps2[i1] == ps[i1] && ps2[i2] == ps[i2 - 1]);
                    if i2 - 1 == i1 {
                        assert(leq(ps[i1], em.0) && leq(em.0, ps[i2 - 1]));
                    }
                }
            }
            assert(paths_of(orig.take(t + 1)) =~= paths_of(orig.take(t as int)).push(em.0));
            assert forall|k: int| 0 <= k < m2.len() implies exists|j: int|
                0 <= j < orig.len() && #[trigger] m2[k] == orig[j] by {
                if k < pos {
                    assert(m2[k] == m[k]);
                } else if k == pos {
                    assert(m2[k] == orig[t as int]);
                } else {
                    assert(m2[k] == m[k - 1]);
                }
            }
        }
        t = t + 1;
    }
    proof {
        broadcast use vstd::seq_lib::group_to_multiset_ensures;

        let rm = entries_names_model(out@);
        assert(orig.take(orig.len() as int) =~= orig);
        assert(paths_of(orig.take(t as int)) =~= paths_of(orig));
        let sp = paths_of(orig).sort_by(lex_leq_fn());
        lemma_sorted_unique(paths_of(rm), sp, lex_leq_fn());
        assert(paths_of(rm) == sp);
        assert(rm.len() == sp.len());
        assert forall|i: int| 0 <= i < rm.len() implies rm[i] == canonical_index(orig)[i] by {
            let j = choose|j: int| 0 <= j < orig.len() && #[trigger] rm[i] == orig[j];
            assert(rm[i].0 == paths_of(rm)[i]);
            assert(rm[i].0 == sp[i]);
            assert(orig[j].0 == sp[i]);
            assert forall|k: int| 0 <= k < j implies (#[trigger] orig[k]).0 != sp[i] by {
                assert((#[trigger] entries_names_model(entries@)[k]).0 != (
                #[trigger] entries_names_model(entries@)[j]).0);
            }
            lemma_ix_idx_is(orig, sp[i], j);
            assert(entry_at_path(orig, sp[i]) == orig[j].1);
            assert(canonical_index(orig)[i] == (sp[i], entry_at_path(orig, sp[i])));
        }
        assert(rm =~= canonical_index(orig));
    }
    out
}

/// Comma-joined concatenation of rendered parts.
pub open spec fn joined(parts: Seq<Seq<char>>) -> Seq<char>
    decreases parts.len(), 1int,
{
    if parts.len() == 0 {
        Seq::empty()
    } else {
        parts[0] + joined_rest(parts.drop_first())
    }
}

pub open spec fn joined_rest(parts: Seq<Seq<char>>) -> Seq<char>
    decreases parts.len(), 0int,
{
    if parts.len() == 0 {
        Seq::empty()
    } else {
        seq![','] + parts[0] + joined_rest(parts.drop_first())
    }
}

pub proof fn lemma_joined_rest_snoc(parts: Seq<Seq<char>>, x: Seq<char>)
    ensures
        joined_rest(parts.push(x)) == joined_rest(parts) + seq![','] + x,
    decreases parts.len(),
{
    if parts.len() == 0 {
        assert(parts.push(x).drop_first() =~= Seq::<Seq<char>>::empty());
        assert(parts.push(x)[0] == x);
        assert(joined_rest(Seq::<Seq<char>>::empty()) == Seq::<char>::empty());
        assert(joined_rest(parts.push(x)) == seq![','] + x + joined_rest(
            Seq::<Seq<char>>::empty(),
        ));
        assert(joined_rest(parts.push(x)) =~= joined_rest(parts) + seq![','] + x);
    } else {
        assert(parts.push(x).drop_first() =~= parts.drop_first().push(x));
        assert(parts.push(x)[0] == parts[0]);
        lemma_joined_rest_snoc(parts.drop_first(), x);
        assert(joined_rest(parts.push(x)) =~= joined_rest(parts) + seq![','] + x);
    }
}

pub proof fn lemma_joined_snoc(parts: Seq<Seq<char>>, x: Seq<char>)
    ensures
        joined(parts.push(x)) == if parts.len() == 0 {
            x
        } else {
            joined(parts) + seq![','] + x
        },
{
    if parts.len() == 0 {
        assert(parts.push(x).drop_first() =~= Seq::<Seq<char>>::empty());
        assert(parts.push(x)[0] == x);
        assert(joined(parts.push(x)) =~= x);
    } else {
        assert(parts.push(x).drop_first() =~= parts.drop_first().push(x));
        assert(parts.push(x)[0] == parts[0]);
        lemma_joined_rest_snoc(parts.drop_first(), x);
        assert(joined(parts.push(x)) =~= joined(parts) + seq![','] + x);
    }
}

/// The text of one field-name-to-position mapping: each name quoted, a colon,
/// its zero-based position in the shape's sorted order.
pub open spec fn mapping_text(names: NamesM) -> Seq<char> {
    seq!['{'] + joined(Seq::new(names.len(), |j: int| json_quoted(names[j]) + seq![':'] + dec_seq(
        j as nat,
    ))) + seq!['}']
}

/// The text recorded for one path: a bare mapping when the path has exactly
/// one shape, else the sequence of mappings in shape id order.
pub open spec fn entry_text(shapes: Seq<NamesM>) -> Seq<char> {
    if shapes.len() == 1 {
        mapping_text(shapes[0])
    } else {
        seq!['['] + joined(Seq::new(shapes.len(), |i: int| mapping_text(shapes[i]))) + seq![']']
    }
}

/// The index document's text: a JSON object keyed by path.
pub open spec fn spec_render_index(ix: IndexM) -> Seq<char> {
    seq!['{'] + joined(
        Seq::new(ix.len(), |i: int| json_quoted(ix[i].0) + seq![':'] + entry_text(ix[i].1)),
    ) + seq!['}']
}

/// Renders one shape's field-name-to-position mapping.
fn render_mapping(names: &Vec<String>) -> (r: String)
    ensures
        r@ == mapping_text(names_model(names@)),
{
    let ghost nm = names_model(names@);
    let ghost parts = Seq::new(nm.len(), |j: int| json_quoted(nm[j]) + seq![':'] + dec_seq(
        j as nat,
    ));
    let mut out = String::from_str("{");
    proof {
        reveal_strlit("{");
        assert(out@ =~= seq!['{']);
        assert(parts.take(0) =~= Seq::<Seq<char>>::empty());
    }
    let mut j: usize = 0;
    while j < names.len()
        invariant
            j <= names.len(),
            nm == names_model(names@),
            nm.len() == names@.len(),
            parts == Seq::new(nm.len(), |t: int| json_quoted(nm[t]) + seq![':'] + dec_seq(
                t as nat,
            )),
            out@ == seq!['{'] + joined(parts.take(j as int)),
        decreases names.len() - j,
    {
        if j > 0 {
            out.append(",");
            proof {
                reveal_strlit(",");
            }
        }
        let q = crate::render::quote_str(names[j].as_str());
        out.append(q.as_str());
        out.append(":");
        let d = dec_string(j);
        out.append(d.as_str());
        proof {
            reveal_strlit(":");
            assert(parts.take(j as int).push(parts[j as int]) =~= parts.take(j + 1));
            lemma_joined_snoc(parts.take(j as int), parts[j as int]);
            assert(out@ =~= seq!['{'] + joined(parts.take(j + 1)));
        }
        j = j + 1;
    }
    out.append("}");
    proof {
        reveal_strlit("}");
        assert(parts.take(parts.len() as int) =~= parts);
        assert(out@ =~= mapping_text(nm));
    }
    out
}

/// Renders the value recorded for one path: a bare mapping for a single
/// shape, else the id-ordered sequence of mappings.
fn render_entry_val(shapes: &Vec<Vec<String>>) -> (r: String)
    ensures
        r@ == entry_text(shapes_names_model(shapes@)),
{
    let ghost sm = shapes_names_model(shapes@);
    if shapes.len() == 1 {
        let s = render_mapping(&shapes[0]);
        proof {
            assert(sm[0] == names_model(shapes@[0]@));
        }
        s
    } else {
        let ghost parts = Seq::new(sm.len(), |i: int| mapping_text(sm[i]));
        let mut out = String::from_str("[");
        proof {
            reveal_strlit("[");
            assert(out@ =~= seq!['[']);
            assert(parts.take(0) =~= Seq::<Seq<char>>::empty());
        }
        let mut i: usize = 0;
        while i < shapes.len()
            invariant
                i <= shapes.len(),
                shapes@.len() != 1,
                sm == shapes_names_model(shapes@),
                sm.len() == shapes@.len(),
                parts == Seq::new(sm.len(), |t: int| mapping_text(sm[t])),
                out@ == seq!['['] + joined(parts.take(i as int)),
            decreases shapes.len() - i,
        {
            if i > 0 {
                out.append(",");
                proof {
                    reveal_strlit(",");
                }
            }
            let s = render_mapping(&shapes[i]);
            out.append(s.as_str());
            proof {
                assert(sm[i as int] == names_model(shapes@[i as int]@));
                assert(parts.take(i as int).push(parts[i as int]) =~= parts.take(i + 1));
                lemma_joined_snoc(parts.take(i as int), parts[i as int]);
                assert(out@ =~= seq!['['] + joined(parts.take(i + 1)));
            }
            i = i + 1;
        }
        out.append("]");
        proof {
            reveal_strlit("]");
            assert(parts.take(parts.len() as int) =~= parts);
            assert(out@ =~= entry_text(sm));
        }
        out
    }
}

/// Renders the index document: a JSON object keyed by path.
pub fn render_index(ix: &Index) -> (r: String)
    ensures
        r@ == spec_render_index(ix.model()),
{
    let ghost im = ix.model();
    let ghost parts = Seq::new(im.len(), |i: int| json_quoted(im[i].0) + seq![':'] + entry_text(
        im[i].1,
    ));
    let mut out = String::from_str("{");
    proof {
        reveal_strlit("{");
        assert(out@ =~= seq!['{']);
        assert(parts.take(0) =~= Seq::<Seq<char>>::empty());
    }
    let mut i: usize = 0;
    while i < ix.entries.len()
        invariant
            i <= ix.entries.len(),
            im == ix.model(),
            im.len() == ix.entries@.len(),
            parts == Seq::new(im.len(), |t: int| json_quoted(im[t].0) + seq![':'] + entry_text(
                im[t].1,
            )),
            out@ == seq!['{'] + joined(parts.take(i as int)),
        decreases ix.entries.len() - i,
    {
        if i > 0 {
            out.append(",");
            proof {
                reveal_strlit(",");
            }
        }
        let q = crate::render::quote_str(ix.entries[i].0.as_str());
        out.append(q.as_str());
        out.append(":");
        let v = render_entry_val(&ix.entries[i].1);
        out.append(v.as_str());
        proof {
            reveal_strlit(":");
            assert(im[i as int] == (
                ix.entries@[i as int].0@,
                shapes_names_model(ix.entries@[i as int].1@),
            ));
            assert(parts.take(i as int).push(parts[i as int]) =~= parts.take(i + 1));
            lemma_joined_snoc(parts.take(i as int), parts[i as int]);
            assert(out@ =~= seq!['{'] + joined(parts.take(i + 1)));
        }
        i = i + 1;
    }
    out.append("}");
    proof {
        reveal_strlit("}");
        assert(parts.take(parts.len() as int) =~= parts);
        assert(out@ =~= spec_render_index(im));
    }
    out
}

} // verus!
