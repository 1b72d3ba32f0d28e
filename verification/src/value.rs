use vstd::prelude::*;

verus! {

/// The kind of a JSON value. Shapes pair each field name with the kind of the
/// value the field held, so two objects with equal names but differing kinds
/// are distinct shapes.
#[derive(Clone, Copy, PartialEq, Eq, Structural, Debug)]
pub enum Kind {
    Null,
    Boolean,
    Number,
    String,
    Array,
    Object,
}

/// A JSON value of the tree. Numbers carry their JSON literal text, so the
/// original textual precision is preserved without any numeric conversion.
/// Object fields keep the order in which the source presented them.
#[derive(Debug)]
pub enum JsonValue {
    Null,
    Boolean(bool),
    Number(String),
    String(String),
    Array(Vec<Node>),
    Object(Vec<(String, Node)>),
}

/// One element of the value tree: a JSON value plus, for objects, the shape id
/// the traversal assigned at the node's path.
#[derive(Debug)]
pub struct Node {
    pub ind: Option<usize>,
    pub val: JsonValue,
}

/// The mathematical model of a tree node: strings become sequences of
/// characters, vectors become sequences, the shape id an optional integer.
pub enum JModel {
    Null,
    Bool(bool),
    Num(Seq<char>),
    Str(Seq<char>),
    Arr(Seq<JModel>),
    Obj(Option<int>, Seq<(Seq<char>, JModel)>),
}

pub open spec fn node_model(n: Node) -> JModel
    decreases n,
{
    match n.val {
        JsonValue::Null => JModel::Null,
        JsonValue::Boolean(b) => JModel::Bool(b),
        JsonValue::Number(t) => JModel::Num(t@),
        JsonValue::String(s) => JModel::Str(s@),
        JsonValue::Array(elems) => JModel::Arr(elems_model(elems@)),
        JsonValue::Object(fields) => JModel::Obj(
            match n.ind {
                Some(i) => Some(i as int),
                None => None,
            },
            obj_fields_model(fields@),
        ),
    }
}

pub open spec fn elems_model(s: Seq<Node>) -> Seq<JModel>
    decreases s,
{
    if s.len() == 0 {
        Seq::empty()
    } else {
        seq![node_model(s[0])] + elems_model(s.drop_first())
    }
}

pub open spec fn obj_fields_model(s: Seq<(String, Node)>) -> Seq<(Seq<char>, JModel)>
    decreases s,
{
    if s.len() == 0 {
        Seq::empty()
    } else {
        seq![(s[0].0@, node_model(s[0].1))] + obj_fields_model(s.drop_first())
    }
}

pub proof fn lemma_elems_model(s: Seq<Node>)
    ensures
        elems_model(s).len() == s.len(),
        forall|i: int| 0 <= i < s.len() ==> elems_model(s)[i] == node_model(#[trigger] s[i]),
    decreases s.len(),
{
    if s.len() > 0 {
        lemma_elems_model(s.drop_first());
        assert forall|i: int| 0 <= i < s.len() implies elems_model(s)[i] == node_model(s[i]) by {
            if i > 0 {
                assert(s.drop_first()[i - 1] == s[i]);
            }
        }
    }
}

pub proof fn lemma_obj_fields_model(s: Seq<(String, Node)>)
    ensures
        obj_fields_model(s).len() == s.len(),
        forall|i: int|
            0 <= i < s.len() ==> obj_fields_model(s)[i] == (
                #[trigger] s[i].0@,
                node_model(s[i].1),
            ),
    decreases s.len(),
{
    if s.len() > 0 {
        lemma_obj_fields_model(s.drop_first());
        assert forall|i: int| 0 <= i < s.len() implies obj_fields_model(s)[i] == (
            s[i].0@,
            node_model(s[i].1),
        ) by {
            if i > 0 {
                assert(s.drop_first()[i - 1] == s[i]);
            }
        }
    }
}

pub open spec fn kind_of_model(m: JModel) -> Kind {
    match m {
        JModel::Null => Kind::Null,
        JModel::Bool(_) => Kind::Boolean,
        JModel::Num(_) => Kind::Number,
        JModel::Str(_) => Kind::String,
        JModel::Arr(_) => Kind::Array,
        JModel::Obj(_, _) => Kind::Object,
    }
}

pub open spec fn value_kind(v: JsonValue) -> Kind {
    match v {
        JsonValue::Null => Kind::Null,
        JsonValue::Boolean(_) => Kind::Boolean,
        JsonValue::Number(_) => Kind::Number,
        JsonValue::String(_) => Kind::String,
        JsonValue::Array(_) => Kind::Array,
        JsonValue::Object(_) => Kind::Object,
    }
}

/// A node's kind is its value's kind, whatever shape id it carries.
pub proof fn lemma_value_kind(n: Node)
    ensures
        value_kind(n.val) == kind_of_model(node_model(n)),
{
}

impl JsonValue {
    /// The kind of this value.
    pub fn json_type(&self) -> (k: Kind)
        ensures
            k == value_kind(*self),
    {
        match self {
            JsonValue::Null => Kind::Null,
            JsonValue::Boolean(_) => Kind::Boolean,
            JsonValue::Number(_) => Kind::Number,
            JsonValue::String(_) => Kind::String,
            JsonValue::Array(_) => Kind::Array,
            JsonValue::Object(_) => Kind::Object,
        }
    }
}

/// The (name, kind) pairs of an object's field list, in field order.
pub open spec fn pairs_of_fields(fs: Seq<(Seq<char>, JModel)>) -> Seq<(Seq<char>, Kind)> {
    fs.map_values(|p: (Seq<char>, JModel)| (p.0, kind_of_model(p.1)))
}

/// The names of an object's field list, in field order.
pub open spec fn names_of_fields(fs: Seq<(Seq<char>, JModel)>) -> Seq<Seq<char>> {
    fs.map_values(|p: (Seq<char>, JModel)| p.0)
}

pub open spec fn distinct_names(fs: Seq<(Seq<char>, JModel)>) -> bool {
    forall|i: int, j: int| 0 <= i < j < fs.len() ==> fs[i].0 != fs[j].0
}

/// Shape ids sit only on object nodes: every scalar and array node of the
/// tree carries none.
pub open spec fn plain_ids(n: Node) -> bool
    decreases n,
{
    match n.val {
        JsonValue::Array(elems) => n.ind is None && plain_ids_list(elems@),
        JsonValue::Object(fields) => plain_ids_fields(fields@),
        _ => n.ind is None,
    }
}

pub open spec fn plain_ids_list(s: Seq<Node>) -> bool
    decreases s,
{
    if s.len() == 0 {
        true
    } else {
        plain_ids(s[0]) && plain_ids_list(s.drop_first())
    }
}

pub open spec fn plain_ids_fields(s: Seq<(String, Node)>) -> bool
    decreases s,
{
    if s.len() == 0 {
        true
    } else {
        plain_ids(s[0].1) && plain_ids_fields(s.drop_first())
    }
}

pub proof fn lemma_plain_ids_list_index(s: Seq<Node>)
    ensures
        plain_ids_list(s) <==> (forall|k: int| 0 <= k < s.len() ==> plain_ids(#[trigger] s[k])),
    decreases s.len(),
{
    if s.len() > 0 {
        lemma_plain_ids_list_index(s.drop_first());
        assert forall|k: int| 0 <= k < s.len() && plain_ids_list(s) implies plain_ids(
            #[trigger] s[k],
        ) by {
            if k > 0 {
                assert(s.drop_first()[k - 1] == s[k]);
            }
        }
        if forall|k: int| 0 <= k < s.len() ==> plain_ids(#[trigger] s[k]) {
            assert forall|k: int| 0 <= k < s.drop_first().len() implies plain_ids(
                #[trigger] s.drop_first()[k],
            ) by {
                assert(s.drop_first()[k] == s[k + 1]);
            }
        }
    }
}

pub proof fn lemma_plain_ids_fields_index(s: Seq<(String, Node)>)
    ensures
        plain_ids_fields(s) <==> (forall|k: int|
            0 <= k < s.len() ==> plain_ids((#[trigger] s[k]).1)),
    decreases s.len(),
{
    if s.len() > 0 {
        lemma_plain_ids_fields_index(s.drop_first());
        assert forall|k: int| 0 <= k < s.len() && plain_ids_fields(s) implies plain_ids(
            (#[trigger] s[k]).1,
        ) by {
            if k > 0 {
                assert(s.drop_first()[k - 1] == s[k]);
            }
        }
        if forall|k: int| 0 <= k < s.len() ==> plain_ids((#[trigger] s[k]).1) {
            assert forall|k: int| 0 <= k < s.drop_first().len() implies plain_ids(
                (#[trigger] s.drop_first()[k]).1,
            ) by {
                assert(s.drop_first()[k] == s[k + 1]);
            }
        }
    }
}

/// Nesting depth of a value: scalars have depth zero, a container one more
/// than its deepest child.
pub open spec fn depth(m: JModel) -> nat
    decreases m,
{
    match m {
        JModel::Arr(es) => 1 + depth_of_list(es),
        JModel::Obj(_, fs) => 1 + depth_of_fields(fs),
        _ => 0,
    }
}

pub open spec fn depth_of_list(es: Seq<JModel>) -> nat
    decreases es,
{
    if es.len() == 0 {
        0
    } else {
        let d0 = depth(es[0]);
        let dr = depth_of_list(es.drop_first());
        if d0 >= dr {
            d0
        } else {
            dr
        }
    }
}

pub open spec fn depth_of_fields(fs: Seq<(Seq<char>, JModel)>) -> nat
    decreases fs,
{
    if fs.len() == 0 {
        0
    } else {
        let d0 = depth(fs[0].1);
        let dr = depth_of_fields(fs.drop_first());
        if d0 >= dr {
            d0
        } else {
            dr
        }
    }
}

/// Structural equality of two documents up to object field order and shape
/// ids: equal scalars, arrays equal element by element, and objects carrying
/// the same field set with structurally equal values, whatever the order of
/// the fields.
pub open spec fn equiv(a: JModel, b: JModel) -> bool
    decreases a,
{
    match (a, b) {
        (JModel::Null, JModel::Null) => true,
        (JModel::Bool(x), JModel::Bool(y)) => x == y,
        (JModel::Num(x), JModel::Num(y)) => x == y,
        (JModel::Str(x), JModel::Str(y)) => x == y,
        (JModel::Arr(xs), JModel::Arr(ys)) => {
            &&& xs.len() == ys.len()
            &&& forall|i: int| 0 <= i < xs.len() ==> equiv(xs[i], ys[i])
        },
        (JModel::Obj(_, fs), JModel::Obj(_, gs)) => {
            &&& distinct_names(fs)
            &&& distinct_names(gs)
            &&& fs.len() == gs.len()
            &&& forall|i: int|
                #![trigger fs[i]]
                0 <= i < fs.len() ==> exists|j: int|
                    0 <= j < gs.len() && gs[j].0 == fs[i].0 && equiv(fs[i].1, #[trigger] gs[j].1)
        },
        _ => false,
    }
}

} // verus!
