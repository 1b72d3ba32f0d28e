use vstd::prelude::*;
use vstd::string::StringExecFns;
use crate::registry::{entry_shapes_at, lemma_reg_extends_refl, lemma_reg_extends_trans,
    lemma_sorted_shape_distinct, pairs_model, reg_extends, reg_idx, wf_reg, wf_shape, RegM,
    Registry, Shape};
use crate::value::{depth, depth_of_fields, depth_of_list, elems_model, lemma_elems_model,
    lemma_obj_fields_model, lemma_plain_ids_fields_index, lemma_plain_ids_list_index,
    lemma_value_kind, node_model, obj_fields_model, pairs_of_fields, plain_ids, plain_ids_fields,
    plain_ids_list, JModel, JsonValue, Kind, Node};
use crate::walk::{annotate, annotate_fields, annotate_list, covered, covered_fields,
    covered_list, elem_path, field_path, lemma_annotate_fields_extends,
    lemma_annotate_fields_index, lemma_annotate_fields_pairs, lemma_annotate_list_extends,
    lemma_annotate_list_index, lemma_covered_fields_extends, lemma_covered_fields_index,
    lemma_covered_list_extends, lemma_covered_list_index, lemma_depth_fields_ge,
    lemma_depth_fields_le, lemma_depth_list_ge, lemma_depth_list_le, lemma_walk_reg_fields_snoc,
    lemma_walk_reg_list_snoc, lemma_wf_doc_fields_index, lemma_wf_doc_list_index,
    shape_of_fields, walk_reg, walk_reg_fields, walk_reg_list, wf_doc, wf_doc_fields,
    wf_doc_list};

verus! {

/// The walker rejects documents nested deeper than this, so that the
/// recursive traversal cannot exhaust the call stack.
pub const MAX_DEPTH: usize = 1024;

#[derive(Debug, Clone, Copy, PartialEq, Eq, Structural)]
pub enum ParseError {
    /// The document nests deeper than `MAX_DEPTH`.
    TooDeep,
}

/// Builds the path of an object's field: the parent path, a dot, the name.
pub fn child_field_path(path: &String, name: &String) -> (r: String)
    ensures
        r@ == field_path(path@, name@),
{
    let mut p = path.clone();
    p.append(".");
    p.append(name.as_str());
    proof {
        reveal_strlit(".");
        assert(p@ =~= field_path(path@, name@));
    }
    p
}

/// Builds the path of an array's elements: the parent path and `[]`.
pub fn child_elem_path(path: &String) -> (r: String)
    ensures
        r@ == elem_path(path@),
{
    let mut p = path.clone();
    p.append("[]");
    proof {
        reveal_strlit("[]");
        assert(p@ =~= elem_path(path@));
    }
    p
}

/// A parsed document: the annotated value tree together with the registry of
/// shapes its traversal discovered.
#[derive(Debug)]
pub struct Json {
    pub variant_map: Registry,
    pub res: Node,
}

impl Json {
    /// The registry the traversal produced.
    pub open spec fn reg(&self) -> RegM {
        self.variant_map.model()
    }

    /// The annotated tree the traversal produced.
    pub open spec fn root_model(&self) -> JModel {
        node_model(self.res)
    }

    /// What every parse result satisfies: a well-formed registry that covers
    /// the annotated tree at the root path.
    pub open spec fn wf(&self) -> bool {
        &&& wf_reg(self.reg())
        &&& covered(self.root_model(), Seq::empty(), self.reg())
    }

    /// The parse of a document is a function of the document alone: the
    /// registry is the traversal's, and the tree is the document with every
    /// object annotated by its shape's id in that registry.
    pub open spec fn is_parse_of(&self, m: JModel) -> bool {
        &&& self.reg() == walk_reg(m, Seq::empty(), Seq::<(Seq<char>, crate::registry::ShapesM)>::empty())
        &&& self.root_model() == annotate(m, Seq::empty(), self.reg())
    }

    /// Renders the compact document and the index document as two JSON
    /// texts. A parsed document always renders: its tree is covered by its
    /// registry, and the serializer cannot fail.
    pub fn to_string(&self) -> (r: Option<(String, String)>)
        requires
            self.wf(),
        ensures
            r is Some,
            r matches Some(p) ==> {
                &&& p.0@ == crate::render::spec_render(
                    crate::encode::spec_encode(self.root_model(), Seq::empty(), self.reg()),
                )
                &&& p.1@ == crate::index::spec_render_index(
                    crate::index::published_index(self.reg()),
                )
            },
    {
        let path = String::new();
        proof {
            assert(path@ =~= Seq::<char>::empty());
        }
        match crate::encode::encode_node(&self.res, &self.variant_map, &path) {
            Ok(c) => {
                let doc = crate::render::render_compact(&c);
                let ix = crate::index::make_index(&self.variant_map);
                let it = crate::index::render_index(&ix);
                Some((doc, it))
            },
            Err(_) => {
                proof {
                    assert(false);
                }
                None
            },
        }
    }

    pub fn get_root(&self) -> (r: &Node)
        ensures
            *r == self.res,
    {
        &self.res
    }

    pub fn get_variants(&self) -> (r: &Registry)
        ensures
            *r == self.variant_map,
    {
        &self.variant_map
    }
}

/// Parses a document: walks the tree depth first, discovers and assigns shape
/// ids, and returns the annotated tree with the shape registry. Succeeds on
/// exactly the documents nested no deeper than `MAX_DEPTH`.
pub fn parse_root(root: &Node) -> (r: Result<Json, ParseError>)
    requires
        wf_doc(node_model(*root)),
    ensures
        match r {
            Ok(j) => {
                &&& j.is_parse_of(node_model(*root))
                &&& j.wf()
                &&& plain_ids(j.res)
                &&& depth(node_model(*root)) <= MAX_DEPTH
            },
            Err(_) => depth(node_model(*root)) > MAX_DEPTH,
        },
{
    let mut reg = Registry::new();
    let path = String::new();
    proof {
        assert(path@ =~= Seq::<char>::empty());
        assert(reg.model() =~= Seq::<(Seq<char>, crate::registry::ShapesM)>::empty());
    }
    match walk_node(&mut reg, root, &path, MAX_DEPTH) {
        Ok(out) => Ok(Json { variant_map: reg, res: out }),
        Err(e) => Err(e),
    }
}

/// One step of the traversal: scalars map to themselves; arrays and objects
/// descend with the extended path, and objects then record their shape.
fn walk_node(reg: &mut Registry, node: &Node, path: &String, depth_left: usize) -> (r: Result<
    Node,
    ParseError,
>)
    requires
        wf_reg(old(reg).model()),
        wf_doc(node_model(*node)),
    ensures
        wf_reg(final(reg).model()),
        reg_extends(old(reg).model(), final(reg).model()),
        match r {
            Ok(out) => {
                &&& final(reg).model() == walk_reg(node_model(*node), path@, old(reg).model())
                &&& node_model(out) == annotate(node_model(*node), path@, final(reg).model())
                &&& covered(node_model(out), path@, final(reg).model())
                &&& plain_ids(out)
                &&& depth(node_model(*node)) <= depth_left as nat
            },
            Err(_) => depth(node_model(*node)) > depth_left as nat,
        },
    decreases *node,
{
    match &node.val {
        JsonValue::Null => {
            proof {
                lemma_reg_extends_refl(reg.model());
            }
            Ok(Node { ind: None, val: JsonValue::Null })
        },
        JsonValue::Boolean(b) => {
            proof {
                lemma_reg_extends_refl(reg.model());
            }
            Ok(Node { ind: None, val: JsonValue::Boolean(*b) })
        },
        JsonValue::Number(t) => {
            proof {
                lemma_reg_extends_refl(reg.model());
            }
            Ok(Node { ind: None, val: JsonValue::Number(t.clone()) })
        },
        JsonValue::String(s) => {
            proof {
                lemma_reg_extends_refl(reg.model());
            }
            Ok(Node { ind: None, val: JsonValue::String(s.clone()) })
        },
        JsonValue::Array(elems) => {
            if depth_left == 0 {
                proof {
                    lemma_reg_extends_refl(reg.model());
                }
                return Err(ParseError::TooDeep);
            }
            let p2 = child_elem_path(path);
            match walk_elems(reg, elems, &p2, depth_left - 1) {
                Ok(out_elems) => {
                    let out = Node { ind: None, val: JsonValue::Array(out_elems) };
                    Ok(out)
                },
                Err(e) => Err(e),
            }
        },
        JsonValue::Object(fields) => {
            if depth_left == 0 {
                proof {
                    lemma_reg_extends_refl(reg.model());
                }
                return Err(ParseError::TooDeep);
            }
            let ghost m = node_model(*node);
            let ghost fs = obj_fields_model(fields@);
            let ghost r0 = reg.model();
            match walk_fields(reg, fields, path, depth_left - 1) {
                Ok(out_fields) => {
                    let ghost r2 = reg.model();
                    let ghost ofs = obj_fields_model(out_fields@);
                    // collect this object's (name, kind) pairs
                    let mut pairs: Vec<(String, Kind)> = Vec::new();
                    let mut k: usize = 0;
                    proof {
                        assert(pairs_model(pairs@) =~= pairs_of_fields(ofs).take(0));
                        lemma_obj_fields_model(out_fields@);
                    }
                    while k < out_fields.len()
                        invariant
                            k <= out_fields.len(),
                            ofs == obj_fields_model(out_fields@),
                            ofs.len() == out_fields@.len(),
                            forall|t: int|
                                0 <= t < out_fields@.len() ==> ofs[t] == (
                                    #[trigger] out_fields@[t].0@,
                                    node_model(out_fields@[t].1),
                                ),
                            pairs@.len() == k,
                            forall|t: int|
                                0 <= t < k ==> (#[trigger] pairs@[t]).0@ == ofs[t].0 && pairs@[t].1
                                    == crate::value::kind_of_model(ofs[t].1),
                        decreases out_fields.len() - k,
                    {
                        let kind = out_fields[k].1.val.json_type();
                        let name = out_fields[k].0.clone();
                        proof {
                            lemma_value_kind(out_fields@[k as int].1);
                            assert(name@ == ofs[k as int].0);
                            assert(kind == crate::value::kind_of_model(ofs[k as int].1));
                        }
                        pairs.push((name, kind));
                        k = k + 1;
                    }
                    proof {
                        assert(pairs_model(pairs@) =~= pairs_of_fields(ofs));
                        lemma_annotate_fields_pairs(fs, path@, r2);
                        assert(pairs_of_fields(ofs) == pairs_of_fields(fs));
                        lemma_sorted_shape_distinct(pairs_of_fields(ofs));
                    }
                    let shape = Shape::of_pairs(pairs);
                    proof {
                        assert(shape.model() == shape_of_fields(fs));
                        assert(wf_shape(shape.model()));
                    }
                    let id = reg.observe(path, shape);
                    proof {
                        let r3 = reg.model();
                        assert(r3 == walk_reg(m, path@, r0));
                        lemma_annotate_fields_extends(fs, path@, r2, r3);
                        lemma_covered_fields_extends(ofs, path@, r2, r3);
                        lemma_annotate_fields_pairs(fs, path@, r3);
                        assert(entry_shapes_at(r3, path@) == r3[reg_idx(r3, path@)].1);
                    }
                    let out = Node { ind: Some(id), val: JsonValue::Object(out_fields) };
                    proof {
                        let r3 = reg.model();
                        assert(node_model(out) == JModel::Obj(Some(id as int), ofs));
                        assert(node_model(out) == annotate(m, path@, r3));
                        assert(covered(node_model(out), path@, r3));
                        assert(depth(m) == 1 + depth_of_fields(fs));
                        lemma_reg_extends_trans(r0, r2, r3);
                    }
                    Ok(out)
                },
                Err(e) => Err(e),
            }
        },
    }
}

/// Walks every element of an array, in order, all under the same path.
fn walk_elems(reg: &mut Registry, elems: &Vec<Node>, path: &String, depth_left: usize) -> (r:
    Result<Vec<Node>, ParseError>)
    requires
        wf_reg(old(reg).model()),
        wf_doc_list(elems_model(elems@)),
    ensures
        wf_reg(final(reg).model()),
        reg_extends(old(reg).model(), final(reg).model()),
        match r {
            Ok(out) => {
                &&& final(reg).model() == walk_reg_list(
                    elems_model(elems@),
                    path@,
                    old(reg).model(),
                )
                &&& elems_model(out@) == annotate_list(
                    elems_model(elems@),
                    path@,
                    final(reg).model(),
                )
                &&& covered_list(elems_model(out@), path@, final(reg).model())
                &&& plain_ids_list(out@)
                &&& depth_of_list(elems_model(elems@)) <= depth_left as nat
            },
            Err(_) => depth_of_list(elems_model(elems@)) > depth_left as nat,
        },
    decreases *elems,
{
    let ghost es = elems_model(elems@);
    let ghost r0 = reg.model();
    proof {
        lemma_elems_model(elems@);
        lemma_wf_doc_list_index(es);
        lemma_reg_extends_refl(r0);
        assert(es.take(0) =~= Seq::<JModel>::empty());
        assert(elems_model(Seq::<Node>::empty()) =~= Seq::<JModel>::empty());
    }
    let mut out: Vec<Node> = Vec::new();
    let mut i: usize = 0;
    proof {
        assert(elems_model(out@) =~= annotate_list(es.take(0), path@, reg.model()));
    }
    while i < elems.len()
        invariant
            i <= elems.len(),
            es == elems_model(elems@),
            es.len() == elems@.len(),
            forall|k: int| 0 <= k < es.len() ==> wf_doc(#[trigger] es[k]),
            forall|k: int| 0 <= k < es.len() ==> es[k] == node_model(#[trigger] elems@[k]),
            r0 == old(reg).model(),
            wf_reg(reg.model()),
            reg_extends(r0, reg.model()),
            reg.model() == walk_reg_list(es.take(i as int), path@, r0),
            elems_model(out@) == annotate_list(es.take(i as int), path@, reg.model()),
            covered_list(elems_model(out@), path@, reg.model()),
            plain_ids_list(out@),
            forall|k: int| 0 <= k < i ==> depth(#[trigger] es[k]) <= depth_left as nat,
        decreases elems.len() - i,
    {
        let ghost r1 = reg.model();
        let res = walk_node(reg, &elems[i], path, depth_left);
        match res {
            Ok(child) => {
                let ghost r2 = reg.model();
                let ghost childm = node_model(child);
                let ghost child_plain = plain_ids(child);
                let ghost prev = out@;
                proof {
                    assert(es.take(i as int).push(es[i as int]) =~= es.take(i + 1));
                    lemma_walk_reg_list_snoc(es.take(i as int), es[i as int], path@, r0);
                    lemma_annotate_list_extends(es.take(i as int), path@, r1, r2);
                    lemma_covered_list_extends(elems_model(out@), path@, r1, r2);
                }
                out.push(child);
                proof {
                    lemma_elems_model(prev);
                    lemma_elems_model(out@);
                    lemma_annotate_list_index(es.take(i + 1), path@, r2);
                    lemma_annotate_list_index(es.take(i as int), path@, r2);
                    assert(out@.len() == prev.len() + 1);
                    assert forall|t: int| 0 <= t < out@.len() implies elems_model(out@)[t]
                        == annotate_list(es.take(i + 1), path@, r2)[t] by {
                        if t < i {
                            assert(out@[t] == prev[t]);
                            assert(elems_model(prev)[t] == annotate_list(
                                es.take(i as int),
                                path@,
                                r2,
                            )[t]);
                            assert(es.take(i + 1)[t] == es.take(i as int)[t]);
                        } else {
                            assert(node_model(out@[t]) == childm);
                            assert(es.take(i + 1)[t] == es[i as int]);
                        }
                    }
                    assert(elems_model(out@) =~= annotate_list(es.take(i + 1), path@, r2));
                    lemma_covered_list_index(elems_model(out@), path@, r2);
                    lemma_covered_list_index(elems_model(prev), path@, r2);
                    assert forall|k: int| 0 <= k < out@.len() implies covered(
                        #[trigger] elems_model(out@)[k],
                        path@,
                        r2,
                    ) by {
                        if k < i {
                            assert(out@[k] == prev[k]);
                            assert(elems_model(out@)[k] == node_model(out@[k]));
                            assert(elems_model(prev)[k] == node_model(prev[k]));
                        } else {
                            assert(elems_model(out@)[k] == node_model(out@[k]));
                            assert(node_model(out@[k]) == childm);
                        }
                    }
                    lemma_plain_ids_list_index(prev);
                    lemma_plain_ids_list_index(out@);
                    assert forall|k: int| 0 <= k < out@.len() implies plain_ids(
                        #[trigger] out@[k],
                    ) by {
                        if k < i {
                            assert(out@[k] == prev[k]);
                        } else {
                            assert(child_plain);
                        }
                    }
                    lemma_reg_extends_trans(r0, r1, r2);
                }
                i = i + 1;
            },
            Err(e) => {
                proof {
                    lemma_depth_list_ge(es, i as int);
                    lemma_reg_extends_trans(r0, r1, reg.model());
                }
                return Err(e);
            },
        }
    }
    proof {
        assert(es.take(es.len() as int) =~= es);
        lemma_depth_list_le(es, depth_left as nat);
    }
    Ok(out)
}

/// Walks every field value of an object, in order, each under its own field
/// path. The object's own shape is recorded by the caller afterwards.
#[verifier::spinoff_prover]
#[verifier::rlimit(60)]
fn walk_fields(reg: &mut Registry, fields: &Vec<(String, Node)>, path: &String, depth_left: usize)
    -> (r: Result<Vec<(String, Node)>, ParseError>)
    requires
        wf_reg(old(reg).model()),
        wf_doc_fields(obj_fields_model(fields@)),
    ensures
        wf_reg(final(reg).model()),
        reg_extends(old(reg).model(), final(reg).model()),
        match r {
            Ok(out) => {
                &&& final(reg).model() == walk_reg_fields(
                    obj_fields_model(fields@),
                    path@,
                    old(reg).model(),
                )
                &&& obj_fields_model(out@) == annotate_fields(
                    obj_fields_model(fields@),
                    path@,
                    final(reg).model(),
                )
                &&& covered_fields(obj_fields_model(out@), path@, final(reg).model())
                &&& plain_ids_fields(out@)
                &&& depth_of_fields(obj_fields_model(fields@)) <= depth_left as nat
            },
            Err(_) => depth_of_fields(obj_fields_model(fields@)) > depth_left as nat,
        },
    decreases *fields,
{
    let ghost fs = obj_fields_model(fields@);
    let ghost r0 = reg.model();
    proof {
        lemma_obj_fields_model(fields@);
        lemma_wf_doc_fields_index(fs);
        lemma_reg_extends_refl(r0);
        assert(fs.take(0) =~= Seq::<(Seq<char>, JModel)>::empty());
        assert(obj_fields_model(Seq::<(String, Node)>::empty()) =~= Seq::<
            (Seq<char>, JModel),
        >::empty());
    }
    let mut out: Vec<(String, Node)> = Vec::new();
    let mut i: usize = 0;
    proof {
        assert(obj_fields_model(out@) =~= annotate_fields(fs.take(0), path@, reg.model()));
    }
    while i < fields.len()
        invariant
            i <= fields.len(),
            fs == obj_fields_model(fields@),
            fs.len() == fields@.len(),
            forall|k: int| 0 <= k < fs.len() ==> wf_doc((#[trigger] fs[k]).1),
            forall|k: int|
                0 <= k < fs.len() ==> fs[k] == (
                    #[trigger] fields@[k].0@,
                    node_model(fields@[k].1),
                ),
            r0 == old(reg).model(),
            wf_reg(reg.model()),
            reg_extends(r0, reg.model()),
            reg.model() == walk_reg_fields(fs.take(i as int), path@, r0),
            obj_fields_model(out@) == annotate_fields(fs.take(i as int), path@, reg.model()),
            covered_fields(obj_fields_model(out@), path@, reg.model()),
            plain_ids_fields(out@),
            forall|k: int| 0 <= k < i ==> depth((#[trigger] fs[k]).1) <= depth_left as nat,
        decreases fields.len() - i,
    {
        let ghost r1 = reg.model();
        let name = fields[i].0.clone();
        let p2 = child_field_path(path, &name);
        let res = walk_node(reg, &fields[i].1, &p2, depth_left);
        match res {
            Ok(child) => {
                let ghost r2 = reg.model();
                let ghost childm = node_model(child);
                let ghost child_plain = plain_ids(child);
                let ghost prev = out@;
                let ghost nm = name@;
                proof {
                    assert(fs.take(i as int).push(fs[i as int]) =~= fs.take(i + 1));
                    lemma_walk_reg_fields_snoc(fs.take(i as int), fs[i as int], path@, r0);
                    lemma_annotate_fields_extends(fs.take(i as int), path@, r1, r2);
                    lemma_covered_fields_extends(obj_fields_model(out@), path@, r1, r2);
                }
                out.push((name, child));
                proof {
                    lemma_obj_fields_model(prev);
                    lemma_obj_fields_model(out@);
                    lemma_annotate_fields_index(fs.take(i + 1), path@, r2);
                    lemma_annotate_fields_index(fs.take(i as int), path@, r2);
                    assert(out@.len() == prev.len() + 1);
                    assert forall|t: int| 0 <= t < out@.len() implies obj_fields_model(out@)[t]
                        == annotate_fields(fs.take(i + 1), path@, r2)[t] by {
                        if t < i {
                            assert(out@[t] == prev[t]);
                            assert(obj_fields_model(prev)[t] == annotate_fields(
                                fs.take(i as int),
                                path@,
                                r2,
                            )[t]);
                            assert(fs.take(i + 1)[t] == fs.take(i as int)[t]);
                        } else {
                            assert(fs.take(i + 1)[t] == fs[i as int]);
                            assert(out@[t].0@ == nm && node_model(out@[t].1) == childm);
                            assert(obj_fields_model(out@)[t] == (nm, childm));
                            assert(fs[i as int].0 == nm);
                        }
                    }
                    assert(obj_fields_model(out@) =~= annotate_fields(fs.take(i + 1), path@, r2));
                    lemma_covered_fields_index(obj_fields_model(out@), path@, r2);
                    lemma_covered_fields_index(obj_fields_model(prev), path@, r2);
                    assert forall|k: int| 0 <= k < out@.len() implies covered(
                        (#[trigger] obj_fields_model(out@)[k]).1,
                        field_path(path@, obj_fields_model(out@)[k].0),
                        r2,
                    ) by {
                        if k < i {
                            assert(out@[k] == prev[k]);
                            assert(obj_fields_model(out@)[k] == (out@[k].0@, node_model(out@[k].1)));
                            assert(obj_fields_model(prev)[k] == (prev[k].0@, node_model(prev[k].1)));
                        } else {
                            assert(obj_fields_model(out@)[k] == (out@[k].0@, node_model(out@[k].1)));
                            assert(out@[k].0@ == nm && node_model(out@[k].1) == childm);
                        }
                    }
                    lemma_plain_ids_fields_index(prev);
                    lemma_plain_ids_fields_index(out@);
                    assert forall|k: int| 0 <= k < out@.len() implies plain_ids(
                        (#[trigger] out@[k]).1,
                    ) by {
                        if k < i {
                            assert(out@[k] == prev[k]);
                        } else {
                            assert(child_plain);
                            assert(out@[k].1 == prev.push(out@[k]).last().1);
                        }
                    }
                    lemma_reg_extends_trans(r0, r1, r2);
                }
                i = i + 1;
            },
            Err(e) => {
                proof {
                    lemma_depth_fields_ge(fs, i as int);
                    assert(reg_extends(r0, r1));
                    assert(reg_extends(r1, reg.model()));
                    lemma_reg_extends_trans(r0, r1, reg.model());
                }
                return Err(e);
            },
        }
    }
    proof {
        assert(fs.take(fs.len() as int) =~= fs);
        lemma_depth_fields_le(fs, depth_left as nat);
    }
    Ok(out)
}

} // verus!
