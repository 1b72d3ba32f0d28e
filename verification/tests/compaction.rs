use arrayniac::decode::{decode_node, DecodeError};
use arrayniac::encode::{encode_node, CompactValue};
use arrayniac::index::{make_index, render_index, Index};
use arrayniac::numeral::{dec_string, parse_dec};
use arrayniac::structure::{parse_root, ParseError};
use arrayniac::value::{JsonValue, Kind, Node};

fn null() -> Node {
    Node { ind: None, val: JsonValue::Null }
}

fn boolean(b: bool) -> Node {
    Node { ind: None, val: JsonValue::Boolean(b) }
}

fn num(t: &str) -> Node {
    Node { ind: None, val: JsonValue::Number(t.to_string()) }
}

fn string(s: &str) -> Node {
    Node { ind: None, val: JsonValue::String(s.to_string()) }
}

fn array(elems: Vec<Node>) -> Node {
    Node { ind: None, val: JsonValue::Array(elems) }
}

fn object(fields: Vec<(&str, Node)>) -> Node {
    Node {
        ind: None,
        val: JsonValue::Object(
            fields.into_iter().map(|(k, v)| (k.to_string(), v)).collect(),
        ),
    }
}

fn encode_texts(root: Node) -> (String, String) {
    let parsed = parse_root(&root).expect("document within depth bound");
    parsed.to_string().expect("serializer")
}

#[test]
fn scalar_documents_render_as_themselves() {
    assert_eq!(encode_texts(null()).0, "null");
    assert_eq!(encode_texts(boolean(true)).0, "true");
    assert_eq!(encode_texts(boolean(false)).0, "false");
    assert_eq!(encode_texts(num("42")).0, "42");
    assert_eq!(encode_texts(string("hi")).0, "\"hi\"");
    assert_eq!(encode_texts(null()).1, "{}");
}

#[test]
fn root_object_renders_sorted_without_tag() {
    // {"a": 1, "b": "x"} at the root: fields sorted a,b; one shape, no tag
    let doc = object(vec![("a", num("1")), ("b", string("x"))]);
    let (compact, index) = encode_texts(doc);
    assert_eq!(compact, "[1,\"x\"]");
    assert_eq!(index, "{\"\":{\"a\":0,\"b\":1}}");
}

#[test]
fn field_order_of_source_does_not_matter() {
    let doc = object(vec![("b", string("x")), ("a", num("1"))]);
    let (compact, index) = encode_texts(doc);
    assert_eq!(compact, "[1,\"x\"]");
    assert_eq!(index, "{\"\":{\"a\":0,\"b\":1}}");
}

#[test]
fn two_shapes_at_one_path_are_tagged() {
    // [{"a":1},{"a":2,"b":3}]: path "[]" has two shapes, every object tagged
    let doc = array(vec![
        object(vec![("a", num("1"))]),
        object(vec![("a", num("2")), ("b", num("3"))]),
    ]);
    let (compact, index) = encode_texts(doc);
    assert_eq!(compact, "[[0,1],[1,2,3]]");
    assert_eq!(index, "{\"[]\":[{\"a\":0},{\"a\":0,\"b\":1}]}");
}

#[test]
fn same_field_set_at_one_path_is_one_shape() {
    // every object at "[]" has field set {a}: no tags, bare mapping
    let doc = array(vec![object(vec![("a", num("1"))]), object(vec![("a", num("2"))])]);
    let (compact, index) = encode_texts(doc);
    assert_eq!(compact, "[[1],[2]]");
    assert_eq!(index, "{\"[]\":{\"a\":0}}");
}

#[test]
fn same_names_different_kind_makes_a_new_shape() {
    let doc = array(vec![object(vec![("a", num("1"))]), object(vec![("a", string("s"))])]);
    let (compact, index) = encode_texts(doc);
    assert_eq!(compact, "[[0,1],[1,\"s\"]]");
    assert_eq!(index, "{\"[]\":[{\"a\":0},{\"a\":0}]}");
}

#[test]
fn identical_objects_at_one_path_share_an_id() {
    // field order differs between the two instances; both map to shape 0
    let doc = array(vec![
        object(vec![("a", num("1")), ("b", num("2"))]),
        object(vec![("b", num("4")), ("a", num("3"))]),
    ]);
    let (compact, index) = encode_texts(doc);
    assert_eq!(compact, "[[1,2],[3,4]]");
    assert_eq!(index, "{\"[]\":{\"a\":0,\"b\":1}}");
}

#[test]
fn objects_at_different_paths_have_separate_entries() {
    // the same object shape under two different field names
    let doc = object(vec![
        ("x", object(vec![("a", num("1"))])),
        ("y", object(vec![("a", num("2"))])),
    ]);
    let (compact, index) = encode_texts(doc);
    assert_eq!(compact, "[[1],[2]]");
    // index keys are in canonical (sorted) path order, the root path first
    assert_eq!(index, "{\"\":{\"x\":0,\"y\":1},\".x\":{\"a\":0},\".y\":{\"a\":0}}");
}

#[test]
fn permuting_fields_changes_neither_output() {
    // neither the compact document nor the index document may show the order
    // in which the source presented object fields
    let d1 = object(vec![
        ("x", object(vec![("a", num("1"))])),
        ("y", object(vec![("b", num("2"))])),
    ]);
    let d2 = object(vec![
        ("y", object(vec![("b", num("2"))])),
        ("x", object(vec![("a", num("1"))])),
    ]);
    let t1 = encode_texts(d1);
    let t2 = encode_texts(d2);
    assert_eq!(t1.1, t2.1);
    // the compact values follow the sorted field order x,y in both
    assert_eq!(t1.0, "[[1],[2]]");
    assert_eq!(t2.0, "[[1],[2]]");
}

#[test]
fn nested_arrays_and_scalars_keep_order() {
    let doc = array(vec![num("1"), array(vec![num("2"), null()]), boolean(false)]);
    let (compact, index) = encode_texts(doc);
    assert_eq!(compact, "[1,[2,null],false]");
    assert_eq!(index, "{}");
}

#[test]
fn shape_stability_encoding_twice_matches() {
    let doc1 = array(vec![
        object(vec![("a", num("1"))]),
        object(vec![("a", num("2")), ("b", num("3"))]),
    ]);
    let doc2 = array(vec![
        object(vec![("a", num("1"))]),
        object(vec![("a", num("2")), ("b", num("3"))]),
    ]);
    assert_eq!(encode_texts(doc1), encode_texts(doc2));
}

fn encode_structural(root: &Node) -> (CompactValue, Index, arrayniac::structure::Json) {
    let parsed = parse_root(root).expect("document within depth bound");
    let empty = String::new();
    let compact =
        encode_node(parsed.get_root(), parsed.get_variants(), &empty).expect("covered tree");
    let ix = make_index(parsed.get_variants());
    (compact, ix, parsed)
}

#[test]
fn round_trip_restores_the_document() {
    // decode(encode(D)) is structurally equal to D: re-encoding the decoded
    // tree gives the same compact and index text
    let doc = array(vec![
        object(vec![("b", num("2")), ("a", num("1"))]),
        object(vec![("a", num("3")), ("c", array(vec![string("z")]))]),
        object(vec![("a", num("4")), ("b", num("5"))]),
    ]);
    let (compact, ix, _parsed) = encode_structural(&doc);
    let empty = String::new();
    let decoded = decode_node(&compact, &ix, &empty).expect("round trip decodes");
    let doc2 = array(vec![
        object(vec![("b", num("2")), ("a", num("1"))]),
        object(vec![("a", num("3")), ("c", array(vec![string("z")]))]),
        object(vec![("a", num("4")), ("b", num("5"))]),
    ]);
    assert_eq!(encode_texts(doc2), encode_texts(decoded));
}

#[test]
fn round_trip_of_single_shape_object() {
    let doc = object(vec![("a", num("1")), ("b", string("x"))]);
    let (compact, ix, _parsed) = encode_structural(&doc);
    let empty = String::new();
    let decoded = decode_node(&compact, &ix, &empty).expect("round trip decodes");
    let doc2 = object(vec![("a", num("1")), ("b", string("x"))]);
    assert_eq!(encode_texts(doc2), encode_texts(decoded));
}

fn two_shape_index() -> Index {
    // an index with one entry at the root: two shapes {a} and {a,b}
    Index {
        entries: vec![(
            String::new(),
            vec![vec!["a".to_string()], vec!["a".to_string(), "b".to_string()]],
        )],
    }
}

#[test]
fn decode_rejects_a_missing_or_malformed_tag() {
    let ix = two_shape_index();
    let empty = String::new();
    // no elements at all: no tag to read
    let c0 = CompactValue::Array(vec![]);
    assert!(matches!(decode_node(&c0, &ix, &empty), Err(DecodeError::BadTag)));
    // first element is not a number
    let c1 = CompactValue::Array(vec![CompactValue::String("0".to_string())]);
    assert!(matches!(decode_node(&c1, &ix, &empty), Err(DecodeError::BadTag)));
    // a number, but not a canonical integer numeral
    let c2 = CompactValue::Array(vec![CompactValue::Number("01".to_string())]);
    assert!(matches!(decode_node(&c2, &ix, &empty), Err(DecodeError::BadTag)));
}

#[test]
fn decode_rejects_a_tag_out_of_range() {
    let ix = two_shape_index();
    let empty = String::new();
    let c = CompactValue::Array(vec![
        CompactValue::Number("5".to_string()),
        CompactValue::Number("1".to_string()),
    ]);
    assert!(matches!(decode_node(&c, &ix, &empty), Err(DecodeError::TagOutOfRange)));
}

#[test]
fn decode_rejects_an_arity_mismatch() {
    let ix = Index { entries: vec![(String::new(), vec![vec!["a".to_string()]])] };
    let empty = String::new();
    let c = CompactValue::Array(vec![
        CompactValue::Number("1".to_string()),
        CompactValue::Number("2".to_string()),
    ]);
    assert!(matches!(decode_node(&c, &ix, &empty), Err(DecodeError::ArityMismatch)));
    // and in the tagged form: shape 0 has one field, two values follow the tag
    let ix2 = two_shape_index();
    let c2 = CompactValue::Array(vec![
        CompactValue::Number("0".to_string()),
        CompactValue::Number("1".to_string()),
        CompactValue::Number("2".to_string()),
    ]);
    assert!(matches!(decode_node(&c2, &ix2, &empty), Err(DecodeError::ArityMismatch)));
}

#[test]
fn decode_reads_a_valid_tag() {
    let ix = two_shape_index();
    let empty = String::new();
    let c = CompactValue::Array(vec![
        CompactValue::Number("1".to_string()),
        CompactValue::Number("7".to_string()),
        CompactValue::Number("8".to_string()),
    ]);
    let decoded = decode_node(&c, &ix, &empty).expect("valid tag");
    match decoded.val {
        JsonValue::Object(fields) => {
            assert_eq!(fields.len(), 2);
            assert_eq!(fields[0].0, "a");
            assert_eq!(fields[1].0, "b");
        },
        _ => panic!("expected an object"),
    }
}

#[test]
fn walker_rejects_documents_nested_too_deep() {
    let mut doc = num("1");
    for _ in 0..1100 {
        doc = array(vec![doc]);
    }
    assert!(matches!(parse_root(&doc), Err(ParseError::TooDeep)));
}

#[test]
fn walker_accepts_documents_at_moderate_depth() {
    let mut doc = num("1");
    for _ in 0..100 {
        doc = array(vec![doc]);
    }
    assert!(parse_root(&doc).is_ok());
}

#[test]
fn registry_records_shapes_with_kinds() {
    let doc = object(vec![("a", num("1")), ("b", string("x"))]);
    let parsed = parse_root(&doc).expect("shallow");
    let reg = parsed.get_variants();
    assert_eq!(reg.entries.len(), 1);
    assert_eq!(reg.entries[0].0, "");
    assert_eq!(reg.entries[0].1.len(), 1);
    let shape = &reg.entries[0].1[0];
    assert_eq!(shape.fields.len(), 2);
    assert_eq!(shape.fields[0].0, "a");
    assert_eq!(shape.fields[0].1, Kind::Number);
    assert_eq!(shape.fields[1].0, "b");
    assert_eq!(shape.fields[1].1, Kind::String);
}

#[test]
fn decimal_numerals_render_and_parse_exactly() {
    assert_eq!(dec_string(0), "0");
    assert_eq!(dec_string(7), "7");
    assert_eq!(dec_string(12345), "12345");
    assert_eq!(parse_dec("0"), Some(0));
    assert_eq!(parse_dec("12345"), Some(12345));
    assert_eq!(parse_dec(""), None);
    assert_eq!(parse_dec("007"), None);
    assert_eq!(parse_dec("12a"), None);
    assert_eq!(parse_dec("99999999999999999999999"), None);
}

#[test]
fn strings_are_escaped_as_json_literals() {
    let doc = object(vec![("a", string("he said \"hi\"\n"))]);
    let (compact, _) = encode_texts(doc);
    assert_eq!(compact, "[\"he said \\\"hi\\\"\\n\"]");
}

#[test]
fn empty_object_and_empty_array_have_their_own_forms() {
    let (compact, index) = encode_texts(object(vec![]));
    assert_eq!(compact, "[]");
    assert_eq!(index, "{\"\":{}}");
    let (compact2, index2) = encode_texts(array(vec![]));
    assert_eq!(compact2, "[]");
    assert_eq!(index2, "{}");
}

#[test]
fn empty_object_round_trips() {
    let doc = object(vec![("a", object(vec![]))]);
    let (compact, ix, _parsed) = encode_structural(&doc);
    let empty = String::new();
    let decoded = decode_node(&compact, &ix, &empty).expect("round trip decodes");
    let doc2 = object(vec![("a", object(vec![]))]);
    assert_eq!(encode_texts(doc2), encode_texts(decoded));
}

#[test]
fn index_text_renders_an_empty_registry() {
    let doc = array(vec![num("1")]);
    let (_, index) = encode_texts(doc);
    assert_eq!(index, "{}");
    let ix = Index { entries: vec![] };
    assert_eq!(render_index(&ix), "{}");
}
