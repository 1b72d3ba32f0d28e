use vstd::prelude::*;
use vstd::relations::{antisymmetric, reflexive, sorted_by, strongly_connected, total_ordering,
    transitive};
use vstd::seq_lib::lemma_sorted_unique;
use crate::order::{lemma_lex_le_antisym, lemma_lex_le_refl, lemma_lex_le_total,
    lemma_lex_le_trans, lex_le, str_le};
use crate::value::Kind;

verus! {

/// One field of a shape signature: a field name and the kind of its value.
pub type FieldSig = (Seq<char>, Kind);

/// A shape, mathematically: the sorted (name, kind) signature of one object.
pub type ShapeM = Seq<FieldSig>;

/// The shapes recorded for one path, in discovery order.
pub type ShapesM = Seq<ShapeM>;

/// The whole registry: per path, the distinct shapes observed there, the
/// paths in the order their first object was completed.
pub type RegM = Seq<(Seq<char>, ShapesM)>;

pub open spec fn kind_rank(k: Kind) -> int {
    match k {
        Kind::Null => 0,
        Kind::Boolean => 1,
        Kind::Number => 2,
        Kind::String => 3,
        Kind::Array => 4,
        Kind::Object => 5,
    }
}

/// The order shapes sort their fields by: by name, and, for equal names, by
/// kind (an object never holds two fields of one name, so the kind is only a
/// tie-break that makes the order total).
pub open spec fn field_le(p: FieldSig, q: FieldSig) -> bool {
    if p.0 == q.0 {
        kind_rank(p.1) <= kind_rank(q.1)
    } else {
        lex_le(p.0, q.0)
    }
}

pub open spec fn field_leq_fn() -> spec_fn(FieldSig, FieldSig) -> bool {
    |p: FieldSig, q: FieldSig| field_le(p, q)
}

pub proof fn lemma_field_le_total_ordering()
    ensures
        total_ordering(field_leq_fn()),
{
    let leq = field_leq_fn();
    assert forall|x: FieldSig| #[trigger] leq(x, x) by {
        lemma_lex_le_refl(x.0);
    }
    assert(reflexive(leq));
    assert forall|x: FieldSig, y: FieldSig| #[trigger] leq(x, y) && #[trigger] leq(y, x)
        implies x == y by {
        if x.0 == y.0 {
            assert(kind_rank(x.1) == kind_rank(y.1));
            assert(x.1 == y.1);
        } else {
            lemma_lex_le_antisym(x.0, y.0);
        }
    }
    assert(antisymmetric(leq));
    assert forall|x: FieldSig, y: FieldSig, z: FieldSig|
        #[trigger] leq(x, y) && #[trigger] leq(y, z) implies leq(x, z) by {
        if x.0 == y.0 && y.0 == z.0 {
        } else if x.0 == y.0 {
        } else if y.0 == z.0 {
        } else {
            lemma_lex_le_trans(x.0, y.0, z.0);
            if x.0 == z.0 {
                lemma_lex_le_antisym(x.0, y.0);
            }
        }
    }
    assert(transitive(leq));
    assert forall|x: FieldSig, y: FieldSig| #[trigger] leq(x, y) || #[trigger] leq(y, x) by {
        if x.0 == y.0 {
        } else {
            lemma_lex_le_total(x.0, y.0);
        }
    }
    assert(strongly_connected(leq));
}

/// The model of an executable field list.
pub open spec fn pairs_model(s: Seq<(String, Kind)>) -> Seq<FieldSig> {
    s.map_values(|p: (String, Kind)| (p.0@, p.1))
}

/// A well-formed shape: sorted fields with pairwise distinct names.
pub open spec fn wf_shape(s: ShapeM) -> bool {
    &&& sorted_by(s, field_leq_fn())
    &&& forall|i: int, j: int| 0 <= i < j < s.len() ==> (#[trigger] s[i]).0 != (#[trigger] s[j]).0
}

/// A shape: the sorted (field name, value kind) signature of one observed
/// object instance.
#[derive(Debug)]
pub struct Shape {
    pub fields: Vec<(String, Kind)>,
}

impl Shape {
    pub open spec fn model(&self) -> ShapeM {
        pairs_model(self.fields@)
    }

    /// Builds the shape of an object from its collected (name, kind) pairs,
    /// sorting them so that the shape does not depend on the order the source
    /// presented the fields in.
    pub fn of_pairs(pairs: Vec<(String, Kind)>) -> (r: Shape)
        ensures
            r.model() == pairs_model(pairs@).sort_by(field_leq_fn()),
    {
        proof {
            lemma_field_le_total_ordering();
            pairs_model(pairs@).lemma_sort_by_ensures(field_leq_fn());
            broadcast use vstd::seq_lib::group_to_multiset_ensures;

        }
        let ghost target = pairs_model(pairs@).sort_by(field_leq_fn());
        let mut out: Vec<(String, Kind)> = Vec::new();
        let mut idx: usize = 0;
        proof {
            assert(pairs_model(pairs@.take(0)) =~= Seq::<FieldSig>::empty());
            assert(pairs_model(out@) =~= Seq::<FieldSig>::empty());
        }
        while idx < pairs.len()
            invariant
                idx <= pairs.len(),
                sorted_by(pairs_model(out@), field_leq_fn()),
                pairs_model(out@).to_multiset() == pairs_model(
                    pairs@.take(idx as int),
                ).to_multiset(),
                total_ordering(field_leq_fn()),
            decreases pairs.len() - idx,
        {
            let name = pairs[idx].0.clone();
            let kind = pairs[idx].1;
            let ghost p = (name@, kind);
            let ghost m = pairs_model(out@);
            let j = insert_pos(&out, &name, kind);
            out.insert(j, (name, kind));
            proof {
                broadcast use vstd::seq_lib::group_to_multiset_ensures;

                let leq = field_leq_fn();
                assert(pairs_model(out@) =~= m.insert(j as int, p));
                if j < m.len() {
                    assert(!field_le(m[j as int], p));
                    assert(leq(m[j as int], p) || leq(p, m[j as int]));
                    assert(leq(p, m[j as int]));
                }
                assert forall|i1: int, i2: int|
                    0 <= i1 < i2 < m.insert(j as int, p).len() implies #[trigger] leq(
                    m.insert(j as int, p)[i1],
                    m.insert(j as int, p)[i2],
                ) by {
                    let s = m.insert(j as int, p);
                    if i1 == j && i2 > j {
                        assert(s[i2] == m[i2 - 1]);
                        assert(leq(p, m[j as int]));
                        if i2 - 1 > j {
                            assert(leq(m[j as int], m[i2 - 1]));
                        }
                    } else if i1 < j && i2 == j {
                        assert(s[i1] == m[i1]);
                        assert(leq(m[i1], p));
                    } else if i2 < j {
                        assert(s[i1] == m[i1] && s[i2] == m[i2]);
                    } else if i1 > j {
                        assert(s[i1] == m[i1 - 1] && s[i2] == m[i2 - 1]);
                    } else {
                        assert(i1 < j && i2 > j);
                        assert(s[i1] == m[i1] && s[i2] == m[i2 - 1]);
                        if i2 - 1 == i1 {
                            assert(leq(m[i1], p) && leq(p, m[i2 - 1]));
                        }
                    }
                }
                assert(pairs_model(pairs@.take(idx + 1)) =~= pairs_model(
                    pairs@.take(idx as int),
                ).push(p));
            }
            idx = idx + 1;
        }
        proof {
            assert(pairs@.take(pairs@.len() as int) =~= pairs@);
        }
        let r = Shape { fields: out };
        proof {
            lemma_sorted_unique(r.model(), target, field_leq_fn());
            assert(r.model() =~= target);
        }
        r
    }
}

/// The position where a new pair belongs in an already sorted field list: the
/// first index holding an element that must come after it.
fn insert_pos(out: &Vec<(String, Kind)>, name: &String, kind: Kind) -> (j: usize)
    ensures
        j <= out.len(),
        forall|k: int| 0 <= k < j ==> field_le(pairs_model(out@)[k], (name@, kind)),
        j < out.len() ==> !field_le(pairs_model(out@)[j as int], (name@, kind)),
{
    let ghost p = (name@, kind);
    let mut j: usize = 0;
    while j < out.len()
        invariant
            j <= out.len(),
            forall|k: int| 0 <= k < j ==> field_le(pairs_model(out@)[k], p),
            p == (name@, kind),
        decreases out.len() - j,
    {
        let le = if out[j].0 == *name {
            kind_rank_x(out[j].1) <= kind_rank_x(kind)
        } else {
            str_le(out[j].0.as_str(), name.as_str())
        };
        if !le {
            proof {
                assert(!field_le(pairs_model(out@)[j as int], p));
            }
            return j;
        }
        proof {
            assert(field_le(pairs_model(out@)[j as int], p));
        }
        j = j + 1;
    }
    j
}

/// A registry entry is well formed when it holds at least one shape, no shape
/// twice, and only well-formed shapes.
pub open spec fn wf_entry(shapes: ShapesM) -> bool {
    &&& shapes.len() >= 1
    &&& forall|a: int, b: int| 0 <= a < b < shapes.len() ==> shapes[a] != shapes[b]
    &&& forall|a: int| 0 <= a < shapes.len() ==> wf_shape(#[trigger] shapes[a])
}

/// A well-formed registry: pairwise distinct paths, each with a well-formed
/// entry.
pub open spec fn wf_reg(m: RegM) -> bool {
    &&& forall|i: int, j: int|
        0 <= i < j < m.len() ==> (#[trigger] m[i]).0 != (#[trigger] m[j]).0
    &&& forall|i: int| 0 <= i < m.len() ==> wf_entry((#[trigger] m[i]).1)
}

/// The first position whose path matches (the length when none does).
pub open spec fn reg_idx(m: RegM, path: Seq<char>) -> int
    decreases m.len(),
{
    if m.len() == 0 {
        0
    } else if m[0].0 == path {
        0
    } else {
        1 + reg_idx(m.drop_first(), path)
    }
}

pub proof fn lemma_reg_idx(m: RegM, path: Seq<char>)
    ensures
        0 <= reg_idx(m, path) <= m.len(),
        reg_idx(m, path) < m.len() ==> m[reg_idx(m, path)].0 == path,
        forall|k: int| 0 <= k < reg_idx(m, path) ==> (#[trigger] m[k]).0 != path,
    decreases m.len(),
{
    if m.len() > 0 && m[0].0 != path {
        lemma_reg_idx(m.drop_first(), path);
        assert forall|k: int| 0 <= k < reg_idx(m, path) implies (#[trigger] m[k]).0 != path by {
            if k > 0 {
                assert(m.drop_first()[k - 1] == m[k]);
            }
        }
    }
}

/// reg_idx is determined by the first-match characterization.
pub proof fn lemma_reg_idx_is(m: RegM, path: Seq<char>, i: int)
    requires
        0 <= i <= m.len(),
        forall|k: int| 0 <= k < i ==> (#[trigger] m[k]).0 != path,
        i < m.len() ==> m[i].0 == path,
    ensures
        reg_idx(m, path) == i,
    decreases m.len(),
{
    if m.len() > 0 {
        if i == 0 {
        } else {
            assert(m[0].0 != path);
            assert forall|k: int| 0 <= k < i - 1 implies (#[trigger] m.drop_first()[k]).0
                != path by {
                assert(m.drop_first()[k] == m[k + 1]);
            }
            assert(i - 1 < m.drop_first().len() ==> m.drop_first()[i - 1].0 == path);
            lemma_reg_idx_is(m.drop_first(), path, i - 1);
        }
    }
}

/// The first position of a shape within an entry (the length when absent).
pub open spec fn shape_idx(shapes: ShapesM, sh: ShapeM) -> int
    decreases shapes.len(),
{
    if shapes.len() == 0 {
        0
    } else if shapes[0] == sh {
        0
    } else {
        1 + shape_idx(shapes.drop_first(), sh)
    }
}

pub proof fn lemma_shape_idx(shapes: ShapesM, sh: ShapeM)
    ensures
        0 <= shape_idx(shapes, sh) <= shapes.len(),
        shape_idx(shapes, sh) < shapes.len() ==> shapes[shape_idx(shapes, sh)] == sh,
        forall|k: int| 0 <= k < shape_idx(shapes, sh) ==> #[trigger] shapes[k] != sh,
    decreases shapes.len(),
{
    if shapes.len() > 0 && shapes[0] != sh {
        lemma_shape_idx(shapes.drop_first(), sh);
        assert forall|k: int| 0 <= k < shape_idx(shapes, sh) implies #[trigger] shapes[k]
            != sh by {
            if k > 0 {
                assert(shapes.drop_first()[k - 1] == shapes[k]);
            }
        }
    }
}

pub proof fn lemma_shape_idx_is(shapes: ShapesM, sh: ShapeM, i: int)
    requires
        0 <= i <= shapes.len(),
        forall|k: int| 0 <= k < i ==> #[trigger] shapes[k] != sh,
        i < shapes.len() ==> shapes[i] == sh,
    ensures
        shape_idx(shapes, sh) == i,
    decreases shapes.len(),
{
    if shapes.len() > 0 {
        if i == 0 {
        } else {
            assert(shapes[0] != sh);
            assert forall|k: int| 0 <= k < i - 1 implies #[trigger] shapes.drop_first()[k]
                != sh by {
                assert(shapes.drop_first()[k] == shapes[k + 1]);
            }
            assert(i - 1 < shapes.drop_first().len() ==> shapes.drop_first()[i - 1] == sh);
            lemma_shape_idx_is(shapes.drop_first(), sh, i - 1);
        }
    }
}

/// What observing one object's shape at a path does to the registry: a new
/// path gets a fresh one-shape entry at the end; a known path either already
/// holds the shape (nothing changes) or has it appended.
pub open spec fn observe_m(m: RegM, path: Seq<char>, sh: ShapeM) -> RegM {
    let i = reg_idx(m, path);
    if i == m.len() {
        m.push((path, seq![sh]))
    } else if shape_idx(m[i].1, sh) < m[i].1.len() {
        m
    } else {
        m.update(i, (m[i].0, m[i].1.push(sh)))
    }
}

/// A path at which every observed object has one and the same shape keeps a
/// single-shape entry for the whole run: observing the recorded shape again
/// changes nothing.
pub proof fn lemma_observe_same_shape(r: RegM, path: Seq<char>, sh: ShapeM)
    requires
        reg_idx(r, path) < r.len(),
        r[reg_idx(r, path)].1 == seq![sh],
    ensures
        observe_m(r, path, sh) == r,
{
    lemma_reg_idx(r, path);
    assert(seq![sh][0] == sh);
    lemma_shape_idx_is(seq![sh], sh, 0);
}

/// The id the registry assigns to a shape at a path, once observed: the first
/// position of the shape in the path's entry.
pub open spec fn observed_id(m: RegM, path: Seq<char>, sh: ShapeM) -> int {
    let m2 = observe_m(m, path, sh);
    shape_idx(m2[reg_idx(m2, path)].1, sh)
}

/// Sorting the (name, kind) pairs of an object whose field names are
/// pairwise distinct gives a well-formed shape.
pub proof fn lemma_sorted_shape_distinct(orig: Seq<FieldSig>)
    requires
        forall|i: int, j: int|
            0 <= i < j < orig.len() ==> (#[trigger] orig[i]).0 != (#[trigger] orig[j]).0,
    ensures
        wf_shape(orig.sort_by(field_leq_fn())),
{
    broadcast use vstd::seq_lib::group_to_multiset_ensures;

    lemma_field_le_total_ordering();
    orig.lemma_sort_by_ensures(field_leq_fn());
    let sorted = orig.sort_by(field_leq_fn());
    assert(orig.no_duplicates());
    orig.lemma_multiset_has_no_duplicates();
    assert forall|x: FieldSig| sorted.to_multiset().contains(x) implies sorted.to_multiset().count(
        x,
    ) == 1 by {
        assert(orig.to_multiset().contains(x));
    }
    sorted.lemma_multiset_has_no_duplicates_conv();
    assert forall|i: int, j: int| 0 <= i < j < sorted.len() implies (#[trigger] sorted[i]).0 != (
    #[trigger] sorted[j]).0 by {
        if sorted[i].0 == sorted[j].0 {
            assert(sorted[i] != sorted[j]);
            assert(sorted.contains(sorted[i]));
            assert(sorted.contains(sorted[j]));
            assert(sorted.to_multiset().contains(sorted[i]));
            assert(sorted.to_multiset().contains(sorted[j]));
            assert(orig.to_multiset().contains(sorted[i]));
            assert(orig.to_multiset().contains(sorted[j]));
            assert(orig.contains(sorted[i]));
            assert(orig.contains(sorted[j]));
            let a = choose|a: int| 0 <= a < orig.len() && orig[a] == sorted[i];
            let b = choose|b: int| 0 <= b < orig.len() && orig[b] == sorted[j];
            assert(a != b);
            assert(orig[a].0 != orig[b].0);
        }
    }
}

/// The shapes recorded for a path (the empty list when the path has none).
pub open spec fn entry_shapes_at(r: RegM, path: Seq<char>) -> ShapesM {
    if reg_idx(r, path) < r.len() {
        r[reg_idx(r, path)].1
    } else {
        Seq::empty()
    }
}

/// Registry evolution during one traversal is append-only: paths keep their
/// positions and every entry keeps its recorded shapes, in order.
pub open spec fn reg_extends(m1: RegM, m2: RegM) -> bool {
    &&& m1.len() <= m2.len()
    &&& forall|i: int|
        0 <= i < m1.len() ==> (#[trigger] m2[i]).0 == m1[i].0 && m1[i].1.is_prefix_of(m2[i].1)
}

pub proof fn lemma_reg_extends_refl(m: RegM)
    ensures
        reg_extends(m, m),
{
    assert forall|i: int| 0 <= i < m.len() implies (#[trigger] m[i]).0 == m[i].0
        && m[i].1.is_prefix_of(m[i].1) by {
        assert(m[i].1 =~= m[i].1.subrange(0, m[i].1.len() as int));
    }
}

/// Observing one shape only appends: a fresh entry at the end, or one shape
/// at the end of the path's entry.
pub proof fn lemma_observe_extends(m: RegM, path: Seq<char>, sh: ShapeM)
    ensures
        reg_extends(m, observe_m(m, path, sh)),
{
    lemma_reg_idx(m, path);
    lemma_reg_extends_refl(m);
    let i = reg_idx(m, path);
    let m2 = observe_m(m, path, sh);
    if i == m.len() {
        assert forall|k: int| 0 <= k < m.len() implies (#[trigger] m2[k]).0 == m[k].0
            && m[k].1.is_prefix_of(m2[k].1) by {
            assert(m2[k] == m[k]);
        }
    } else if shape_idx(m[i].1, sh) < m[i].1.len() {
    } else {
        assert forall|k: int| 0 <= k < m.len() implies (#[trigger] m2[k]).0 == m[k].0
            && m[k].1.is_prefix_of(m2[k].1) by {
            if k == i {
                assert(m2[k].1 == m[k].1.push(sh));
                assert(m[k].1 =~= m[k].1.push(sh).subrange(0, m[k].1.len() as int));
            } else {
                assert(m2[k] == m[k]);
            }
        }
    }
}

pub proof fn lemma_reg_extends_trans(m1: RegM, m2: RegM, m3: RegM)
    requires
        reg_extends(m1, m2),
        reg_extends(m2, m3),
    ensures
        reg_extends(m1, m3),
{
}

/// A path present in the smaller registry keeps its position and its entry
/// only grows; a path absent there sits at or past the old length.
pub proof fn lemma_reg_idx_extends(m1: RegM, m2: RegM, path: Seq<char>)
    requires
        reg_extends(m1, m2),
    ensures
        reg_idx(m1, path) < m1.len() ==> reg_idx(m2, path) == reg_idx(m1, path),
        reg_idx(m1, path) == m1.len() ==> reg_idx(m2, path) >= m1.len(),
{
    lemma_reg_idx(m1, path);
    lemma_reg_idx(m2, path);
    let i = reg_idx(m1, path);
    if i < m1.len() {
        lemma_reg_idx_is(m2, path, i);
    } else {
        if reg_idx(m2, path) < m1.len() {
            assert(m1[reg_idx(m2, path)].0 == path);
        }
    }
}

/// The registry with its shapes: per-path lists of shapes, keyed by the path
/// string, in first-discovery order.
#[derive(Debug)]
pub struct Registry {
    pub entries: Vec<(String, Vec<Shape>)>,
}

pub open spec fn shapes_model(v: Seq<Shape>) -> ShapesM {
    v.map_values(|s: Shape| s.model())
}

pub open spec fn entries_model(entries: Seq<(String, Vec<Shape>)>) -> RegM {
    entries.map_values(|e: (String, Vec<Shape>)| (e.0@, shapes_model(e.1@)))
}

impl Registry {
    pub open spec fn model(&self) -> RegM {
        entries_model(self.entries@)
    }

    pub fn new() -> (r: Registry)
        ensures
            r.model() =~= Seq::<(Seq<char>, ShapesM)>::empty(),
    {
        let r = Registry { entries: Vec::new() };
        proof {
            assert(r.model() =~= Seq::<(Seq<char>, ShapesM)>::empty());
        }
        r
    }

    /// The position of a path's entry, or the number of entries when the path
    /// has none yet.
    pub fn find_entry(&self, path: &String) -> (i: usize)
        ensures
            i as int == reg_idx(self.model(), path@),
    {
        let mut i: usize = 0;
        while i < self.entries.len()
            invariant
                i <= self.entries.len(),
                forall|k: int| 0 <= k < i ==> (#[trigger] self.model()[k]).0 != path@,
            decreases self.entries.len() - i,
        {
            if self.entries[i].0 == *path {
                proof {
                    lemma_reg_idx_is(self.model(), path@, i as int);
                }
                return i;
            }
            i = i + 1;
        }
        proof {
            lemma_reg_idx_is(self.model(), path@, i as int);
        }
        i
    }

    /// Records that an object of the given shape was observed at the path and
    /// returns the shape's id there: the position of its first observation.
    pub fn observe(&mut self, path: &String, shape: Shape) -> (id: usize)
        requires
            wf_reg(old(self).model()),
            wf_shape(shape.model()),
        ensures
            final(self).model() == observe_m(old(self).model(), path@, shape.model()),
            wf_reg(final(self).model()),
            reg_extends(old(self).model(), final(self).model()),
            id as int == observed_id(old(self).model(), path@, shape.model()),
            reg_idx(final(self).model(), path@) < final(self).model().len(),
            ({
                let shapes = final(self).model()[reg_idx(final(self).model(), path@)].1;
                &&& (id as int) < shapes.len()
                &&& shapes[id as int] == shape.model()
                &&& shape_idx(shapes, shape.model()) == id as int
            }),
    {
        let ghost m0 = self.model();
        let ghost sh = shape.model();
        proof {
            lemma_reg_idx(m0, path@);
        }
        let i = self.find_entry(path);
        if i == self.entries.len() {
            let mut shapes: Vec<Shape> = Vec::new();
            shapes.push(shape);
            proof {
                assert(shapes_model(shapes@) =~= seq![sh]);
            }
            self.entries.push((path.clone(), shapes));
            proof {
                assert(self.model() =~= m0.push((path@, seq![sh])));
                lemma_reg_idx_is(self.model(), path@, i as int);
                assert(self.model()[i as int].1 == seq![sh]);
                assert(seq![sh][0] == sh);
                lemma_shape_idx_is(seq![sh], sh, 0);
                assert(wf_reg(self.model()));
            }
            0
        } else {
            let j = find_shape(&self.entries[i].1, &shape);
            proof {
                lemma_shape_idx(m0[i as int].1, sh);
            }
            if j < self.entries[i].1.len() {
                proof {
                    assert(self.model() == observe_m(m0, path@, sh));
                }
                j
            } else {
                let mut entry = self.entries.remove(i);
                entry.1.push(shape);
                self.entries.insert(i, entry);
                proof {
                    assert(self.entries@ =~= old(self).entries@.update(
                        i as int,
                        self.entries@[i as int],
                    ));
                    assert(self.entries@[i as int].1@ =~= old(self).entries@[i as int].1@.push(
                        shape,
                    ));
                    assert(shapes_model(self.entries@[i as int].1@) =~= m0[i as int].1.push(sh));
                    assert(self.model() =~~= m0.update(
                        i as int,
                        (m0[i as int].0, m0[i as int].1.push(sh)),
                    ));
                    let shapes2 = self.model()[i as int].1;
                    assert(shapes2 == m0[i as int].1.push(sh));
                    assert forall|k: int| 0 <= k < j implies #[trigger] shapes2[k] != sh by {
                        assert(shapes2[k] == m0[i as int].1[k]);
                    }
                    assert(shapes2[j as int] == sh);
                    lemma_shape_idx_is(shapes2, sh, j as int);
                    lemma_reg_idx_is(self.model(), path@, i as int);
                    assert forall|a: int, b: int|
                        0 <= a < b < shapes2.len() implies shapes2[a] != shapes2[b] by {
                        if b < j {
                            assert(shapes2[a] == m0[i as int].1[a]);
                            assert(shapes2[b] == m0[i as int].1[b]);
                        } else {
                            assert(shapes2[b] == sh);
                            assert(shapes2[a] == m0[i as int].1[a]);
                        }
                    }
                    assert(wf_reg(self.model()));
                }
                j
            }
        }
    }
}

/// The position of a shape in an entry's shape list, or its length when the
/// shape is new there.
fn find_shape(shapes: &Vec<Shape>, sh: &Shape) -> (j: usize)
    ensures
        j as int == shape_idx(shapes_model(shapes@), sh.model()),
{
    let mut j: usize = 0;
    while j < shapes.len()
        invariant
            j <= shapes.len(),
            forall|k: int| 0 <= k < j ==> #[trigger] shapes_model(shapes@)[k] != sh.model(),
        decreases shapes.len() - j,
    {
        if shape_eq(&shapes[j], sh) {
            proof {
                lemma_shape_idx_is(shapes_model(shapes@), sh.model(), j as int);
            }
            return j;
        }
        j = j + 1;
    }
    proof {
        lemma_shape_idx_is(shapes_model(shapes@), sh.model(), j as int);
    }
    j
}

/// Exact shape equality: same field names and kinds in the same order.
pub fn shape_eq(a: &Shape, b: &Shape) -> (r: bool)
    ensures
        r == (a.model() == b.model()),
{
    if a.fields.len() != b.fields.len() {
        return false;
    }
    let mut k: usize = 0;
    while k < a.fields.len()
        invariant
            k <= a.fields.len(),
            a.fields.len() == b.fields.len(),
            forall|t: int| 0 <= t < k ==> a.model()[t] == b.model()[t],
        decreases a.fields.len() - k,
    {
        let ka = kind_rank_x(a.fields[k].1);
        let kb = kind_rank_x(b.fields[k].1);
        if ka != kb || a.fields[k].0 != b.fields[k].0 {
            proof {
                assert(a.model()[k as int] != b.model()[k as int]);
            }
            return false;
        }
        k = k + 1;
    }
    proof {
        assert(a.model() =~= b.model());
    }
    true
}

/// Exact kind rank, used to compare kinds executably.
pub fn kind_rank_x(k: Kind) -> (r: u8)
    ensures
        r as int == kind_rank(k),
{
    match k {
        Kind::Null => 0,
        Kind::Boolean => 1,
        Kind::Number => 2,
        Kind::String => 3,
        Kind::Array => 4,
        Kind::Object => 5,
    }
}

} // verus!
