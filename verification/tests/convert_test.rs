use json2rdf::convert::Converter;
use json2rdf::json::{JsonNumber, JsonValue};
use json2rdf::rdf::{Node, Term, Triple, XsdType};
use json2rdf::text::compute_stable_hash;

const DEFAULT_NS: &str = "https://purl.org/wiser/json2rdf/model#";

fn num(text: &str, is_i64: bool, is_f64: bool) -> JsonValue {
    JsonValue::Number(JsonNumber { text: text.to_string(), is_i64, is_f64 })
}

fn s(text: &str) -> JsonValue {
    JsonValue::String(text.to_string())
}

fn obj(members: Vec<(&str, JsonValue)>) -> JsonValue {
    JsonValue::Object(members.into_iter().map(|(k, v)| (k.to_string(), v)).collect())
}

fn iri(text: &str) -> Node {
    Node::Iri(text.to_string())
}

fn lit(value: &str, datatype: XsdType) -> Term {
    Term::Literal(value.to_string(), datatype)
}

fn triple(subject: Node, predicate: &str, object: Term) -> Triple {
    Triple { subject, predicate: predicate.to_string(), object }
}

#[test]
fn root_object_scalars_become_typed_literals() {
    let mut c = Converter::new(&Some("http://example.com/ns/".to_string()));
    let text = "{\"age\":30,\"name\":\"Alice\",\"nothing\":null,\"ok\":true,\"pi\":3.5,\"w\":1}";
    let doc = obj(vec![
        ("age", num("30", true, true)),
        ("name", s("Alice")),
        ("nothing", JsonValue::Null),
        ("ok", JsonValue::Bool(true)),
        ("pi", num("3.5", false, true)),
        ("w", num("1", false, false)),
    ]);
    let root = iri(&format!("http://example.com/ns#{}", compute_stable_hash(text)));
    let triples = c.convert(&doc, text);
    assert_eq!(
        triples,
        vec![
            triple(root.clone(), "http://example.com/ns#age", lit("30", XsdType::Int)),
            triple(root.clone(), "http://example.com/ns#name", lit("Alice", XsdType::String)),
            triple(root.clone(), "http://example.com/ns#ok", lit("true", XsdType::Boolean)),
            triple(root, "http://example.com/ns#pi", lit("3.5", XsdType::Float)),
        ]
    );
    assert!(!c.awaits_root());
}

#[test]
fn nested_objects_and_arrays_use_numbered_blank_nodes() {
    let mut c = Converter::new(&None);
    assert!(c.awaits_root());
    let text = "{\"a\":{\"b\":1},\"c\":[false,{\"d\":\"x\"}]}";
    let doc = obj(vec![
        ("a", obj(vec![("b", num("1", true, true))])),
        ("c", JsonValue::Array(vec![JsonValue::Bool(false), obj(vec![("d", s("x"))])])),
    ]);
    let root = iri(&format!("{}{}", DEFAULT_NS, compute_stable_hash(text)));
    let p = |k: &str| format!("{}{}", DEFAULT_NS, k);
    assert_eq!(
        c.convert(&doc, text),
        vec![
            triple(root.clone(), &p("a"), Term::Node(Node::Blank(0))),
            triple(Node::Blank(0), &p("b"), lit("1", XsdType::Int)),
            triple(root.clone(), &p("c"), lit("false", XsdType::Boolean)),
            triple(root, &p("c"), Term::Node(Node::Blank(1))),
            triple(Node::Blank(1), &p("d"), lit("x", XsdType::String)),
        ]
    );
    // Later objects are blank nodes numbered after the ones already used.
    let second = obj(vec![("e", num("2", true, true)), ("f", obj(vec![]))]);
    assert_eq!(
        c.convert(&second, "ignored"),
        vec![
            triple(Node::Blank(2), &p("e"), lit("2", XsdType::Int)),
            triple(Node::Blank(2), &p("f"), Term::Node(Node::Blank(3))),
        ]
    );
    let third = obj(vec![("g", JsonValue::Null)]);
    assert!(c.convert(&third, "").is_empty());
    let fourth = obj(vec![("h", JsonValue::Bool(true))]);
    assert_eq!(
        c.convert(&fourth, ""),
        vec![triple(Node::Blank(5), &p("h"), lit("true", XsdType::Boolean))]
    );
}

#[test]
fn top_level_arrays_and_scalars_state_nothing() {
    let mut c = Converter::new(&Some("http://e.org/".to_string()));
    let array = JsonValue::Array(vec![obj(vec![("k", s("v"))]), s("x")]);
    assert!(c.convert(&array, "").is_empty());
    assert!(c.convert(&s("plain"), "").is_empty());
    assert!(c.convert(&num("1", true, true), "").is_empty());
    assert!(c.convert(&JsonValue::Null, "").is_empty());
    assert!(c.awaits_root());
    // The first object after them is still the root.
    let doc = obj(vec![("k", s("v"))]);
    let triples = c.convert(&doc, "{\"k\":\"v\"}");
    assert_eq!(
        triples,
        vec![triple(
            iri(&format!("http://e.org#{}", compute_stable_hash("{\"k\":\"v\"}"))),
            "http://e.org#k",
            lit("v", XsdType::String),
        )]
    );
}

#[test]
fn keys_are_percent_encoded_in_properties() {
    let mut c = Converter::new(&Some("  http://e.org/vocab#  ".to_string()));
    let doc = obj(vec![("first name", s("Ann")), ("é", obj(vec![("x y", s("z"))]))]);
    let root = iri(&format!("http://e.org/vocab#{}", compute_stable_hash("t")));
    assert_eq!(
        c.convert(&doc, "t"),
        vec![
            triple(root.clone(), "http://e.org/vocab#first%20name", lit("Ann", XsdType::String)),
            triple(root, "http://e.org/vocab#%C3%A9", Term::Node(Node::Blank(0))),
            triple(Node::Blank(0), "http://e.org/vocab#x%20y", lit("z", XsdType::String)),
        ]
    );
}

#[test]
fn nested_arrays_repeat_the_property() {
    let mut c = Converter::new(&None);
    let doc = obj(vec![(
        "xs",
        JsonValue::Array(vec![
            num("1", true, true),
            JsonValue::Array(vec![num("2", true, true), JsonValue::Null]),
            num("1.0e400", false, false),
        ]),
    )]);
    let root = iri(&format!("{}{}", DEFAULT_NS, compute_stable_hash("")));
    let p = format!("{}xs", DEFAULT_NS);
    assert_eq!(
        c.convert(&doc, ""),
        vec![
            triple(root.clone(), &p, lit("1", XsdType::Int)),
            triple(root, &p, lit("2", XsdType::Int)),
        ]
    );
}

#[test]
fn blank_nodes_of_later_documents_are_fresh() {
    let mut c = Converter::new(&None);
    let many = obj(vec![("xs", JsonValue::Array((0..11).map(|_| obj(vec![])).collect()))]);
    let first = c.convert(&many, "");
    assert_eq!(first.len(), 11);
    assert_eq!(first[10].object, Term::Node(Node::Blank(10)));
    let again = obj(vec![("y", obj(vec![]))]);
    let second = c.convert(&again, "");
    assert_eq!(second, vec![triple(
        Node::Blank(11),
        &format!("{}y", DEFAULT_NS),
        Term::Node(Node::Blank(12)),
    )]);
}

#[test]
fn can_convert_ordinary_values() {
    let c = Converter::new(&None);
    assert!(c.can_convert(&obj(vec![("a", obj(vec![("b", obj(vec![]))]))])));
    assert!(c.can_convert(&JsonValue::Null));
}

#[test]
fn single_member_document() {
    let mut c = Converter::new(&Some("http://example.com/ns#".to_string()));
    let doc = obj(vec![("key", s("value"))]);
    let text = "{\"key\":\"value\"}";
    assert_eq!(
        c.convert(&doc, text),
        vec![triple(
            iri(&format!("http://example.com/ns#{}", compute_stable_hash(text))),
            "http://example.com/ns#key",
            lit("value", XsdType::String),
        )]
    );
}
