//! The conversion of JSON values into RDF triples.

use vstd::prelude::*;
use crate::json::{JsonValue, blank_count, items_blank_count, entries_blank_count};
use crate::rdf::{Node, NodeView, Term, TermView, Triple, TripleView, XsdType};
use crate::text::{
    normalized_namespace, property_uri, normalize_namespace, create_property_uri, strip_trailing,
    lower_hex, default_hasher_digest, compute_stable_hash, with_hash_separator,
    lemma_normalize_idempotent, lemma_normalized_separator, lemma_property_uri_in_namespace,
    url_encoded, percent_decode, lemma_property_uri_decodes,
};
use vstd::utf8::decode_utf8;

verus! {

/// The lexical form of a JSON boolean.
pub open spec fn bool_text(b: bool) -> Seq<char> {
    if b {
        "true"@
    } else {
        "false"@
    }
}

/// The literal a scalar JSON value becomes, if it becomes one: a boolean becomes an
/// `xsd:boolean`, a number an `xsd:int` when it reads as an `i64` and otherwise an
/// `xsd:float` when it reads as an `f64`, a string an `xsd:string`.
pub open spec fn scalar_literal(v: JsonValue) -> Option<TermView> {
    match v {
        JsonValue::Bool(b) => Some(TermView::Literal(bool_text(b), XsdType::Boolean)),
        JsonValue::Number(n) => if n.is_i64 {
            Some(TermView::Literal(n.text@, XsdType::Int))
        } else if n.is_f64 {
            Some(TermView::Literal(n.text@, XsdType::Float))
        } else {
            None
        },
        JsonValue::String(s) => Some(TermView::Literal(s@, XsdType::String)),
        _ => None,
    }
}

/// The triples that state the value `v` of `property` for `subject`, the blank nodes of
/// the objects inside `v` being numbered from `next` on in document order.
/// A nested object becomes a fresh blank node, linked to `subject` and described by its
/// members; an array states each of its elements for the same subject and property;
/// `null` states nothing. Properties inside `v` are named within the normalised `ns`.
pub open spec fn value_triples(
    subject: NodeView,
    property: Seq<char>,
    ns: Seq<char>,
    v: JsonValue,
    next: nat,
) -> Seq<TripleView>
    decreases v,
{
    match v {
        JsonValue::Object(entries) => seq![
            TripleView {
                subject,
                predicate: property,
                object: TermView::Node(NodeView::Blank(next)),
            },
        ] + entries_triples(NodeView::Blank(next), normalized_namespace(ns), entries@, next + 1),
        JsonValue::Array(items) => items_triples(
            subject,
            property,
            normalized_namespace(ns),
            items@,
            next,
        ),
        _ => match scalar_literal(v) {
            Some(object) => seq![TripleView { subject, predicate: property, object }],
            None => Seq::empty(),
        },
    }
}

/// The triples of the elements of an array, in order.
pub open spec fn items_triples(
    subject: NodeView,
    property: Seq<char>,
    ns: Seq<char>,
    items: Seq<JsonValue>,
    next: nat,
) -> Seq<TripleView>
    decreases items,
{
    if items.len() == 0 {
        Seq::empty()
    } else {
        items_triples(subject, property, ns, items.drop_last(), next) + value_triples(
            subject,
            property,
            ns,
            items.last(),
            next + items_blank_count(items.drop_last()),
        )
    }
}

/// The triples of the members of an object described by `subject`, in order; each member
/// is stated under the property its key names within `ns`.
pub open spec fn entries_triples(
    subject: NodeView,
    ns: Seq<char>,
    entries: Seq<(String, JsonValue)>,
    next: nat,
) -> Seq<TripleView>
    decreases entries,
{
    if entries.len() == 0 {
        Seq::empty()
    } else {
        entries_triples(subject, ns, entries.drop_last(), next) + value_triples(
            subject,
            property_uri(ns, entries.last().0@),
            ns,
            entries.last().1,
            next + entries_blank_count(entries.drop_last()),
        )
    }
}

proof fn lemma_items_count_prefix(items: Seq<JsonValue>, j: int)
    requires
        0 <= j <= items.len(),
    ensures
        items_blank_count(items.take(j)) <= items_blank_count(items),
    decreases items.len(),
{
    if j < items.len() {
        assert(items.drop_last().take(j) =~= items.take(j));
        lemma_items_count_prefix(items.drop_last(), j);
    } else {
        assert(items.take(j) =~= items);
    }
}

proof fn lemma_entries_count_prefix(entries: Seq<(String, JsonValue)>, j: int)
    requires
        0 <= j <= entries.len(),
    ensures
        entries_blank_count(entries.take(j)) <= entries_blank_count(entries),
    decreases entries.len(),
{
    if j < entries.len() {
        assert(entries.drop_last().take(j) =~= entries.take(j));
        lemma_entries_count_prefix(entries.drop_last(), j);
    } else {
        assert(entries.take(j) =~= entries);
    }
}

/// The triples of an array are those of its parts in order: splitting the elements in
/// two gives the triples of the first part followed by those of the second, whose blank
/// nodes are numbered after the ones the first part names.
pub proof fn lemma_items_triples_concat(
    subject: NodeView,
    property: Seq<char>,
    ns: Seq<char>,
    a: Seq<JsonValue>,
    b: Seq<JsonValue>,
    next: nat,
)
    ensures
        items_blank_count(a + b) == items_blank_count(a) + items_blank_count(b),
        items_triples(subject, property, ns, a + b, next) == items_triples(
            subject,
            property,
            ns,
            a,
            next,
        ) + items_triples(subject, property, ns, b, next + items_blank_count(a)),
    decreases b.len(),
{
    if b.len() == 0 {
        assert(a + b =~= a);
    } else {
        assert((a + b).drop_last() =~= a + b.drop_last());
        assert((a + b).last() == b.last());
        lemma_items_triples_concat(subject, property, ns, a, b.drop_last(), next);
    }
}

/// Appends `t` to `out`.
fn push_triple(out: &mut Vec<Triple>, t: Triple)
    ensures
        final(out).deep_view() == old(out).deep_view().push(t@),
{
    let ghost before = out.deep_view();
    out.push(t);
    assert(out.deep_view() =~= before.push(t@));
}

/// Converts `value`, the value of `property` for the subject on top of `subject_stack`,
/// into triples appended to `out`; blank nodes are numbered from `blank_node_counter` on.
/// Nothing happens when the stack is empty or there is no property.
fn process_value(
    subject_stack: &mut Vec<Node>,
    property: &Option<String>,
    value: &JsonValue,
    out: &mut Vec<Triple>,
    namespace: &str,
    blank_node_counter: &mut u64,
)
    requires
        old(subject_stack)@.len() > 0 && property is Some ==> *old(blank_node_counter) + blank_count(
            *value,
        ) <= u64::MAX,
    ensures
        final(subject_stack)@ == old(subject_stack)@,
        old(subject_stack)@.len() > 0 && property is Some ==> {
            &&& final(out).deep_view() == old(out).deep_view() + value_triples(
                old(subject_stack)@.last()@,
                property->0@,
                namespace@,
                *value,
                *old(blank_node_counter) as nat,
            )
            &&& *final(blank_node_counter) == *old(blank_node_counter) + blank_count(*value)
        },
        !(old(subject_stack)@.len() > 0 && property is Some) ==> {
            &&& final(out).deep_view() == old(out).deep_view()
            &&& *final(blank_node_counter) == *old(blank_node_counter)
        },
    decreases value,
{
    let normalized_ns = normalize_namespace(namespace);
    if subject_stack.len() == 0 {
        return;
    }
    let prop = match property {
        Some(p) => p,
        None => {
            return;
        },
    };
    let last_subject = subject_stack[subject_stack.len() - 1].duplicate();
    match value {
        JsonValue::Bool(b) => {
            let text = if *b {
                String::from_str("true")
            } else {
                String::from_str("false")
            };
            push_triple(
                out,
                Triple {
                    subject: last_subject,
                    predicate: prop.clone(),
                    object: Term::Literal(text, XsdType::Boolean),
                },
            );
        },
        JsonValue::Number(num) => {
            let datatype = if num.is_i64 {
                XsdType::Int
            } else if num.is_f64 {
                XsdType::Float
            } else {
                return;
            };
            push_triple(
                out,
                Triple {
                    subject: last_subject,
                    predicate: prop.clone(),
                    object: Term::Literal(num.text.clone(), datatype),
                },
            );
        },
        JsonValue::String(s) => {
            push_triple(
                out,
                Triple {
                    subject: last_subject,
                    predicate: prop.clone(),
                    object: Term::Literal(s.clone(), XsdType::String),
                },
            );
        },
        JsonValue::Null => {},
        JsonValue::Object(entries) => {
            let ghost stack0 = subject_stack@;
            let id: u64 = *blank_node_counter;
            *blank_node_counter = *blank_node_counter + 1;
            subject_stack.push(Node::Blank(id));
            push_triple(
                out,
                Triple {
                    subject: last_subject,
                    predicate: prop.clone(),
                    object: Term::Node(Node::Blank(id)),
                },
            );
            let ghost out1 = out.deep_view();
            let ghost subject = NodeView::Blank(id as nat);
            let n: usize = entries.len();
            let mut i: usize = 0;
            while i < n
                invariant
                    0 <= i <= n,
                    n == entries@.len(),
                    subject_stack@ == stack0.push(Node::Blank(id)),
                    id + 1 + entries_blank_count(entries@) <= u64::MAX,
                    *blank_node_counter == id + 1 + entries_blank_count(entries@.take(i as int)),
                    out.deep_view() == out1 + entries_triples(
                        subject,
                        normalized_ns@,
                        entries@.take(i as int),
                        id as nat + 1,
                    ),
                    normalized_ns@ == normalized_namespace(namespace@),
                    *value == JsonValue::Object(*entries),
                    subject == NodeView::Blank(id as nat),
                decreases n - i,
            {
                let (key, val) = &entries[i];
                proof {
                    lemma_entries_count_prefix(entries@, i + 1);
                    assert(entries@.take(i + 1).drop_last() =~= entries@.take(i as int));
                    assert(entries@.take(i + 1).last() == entries@[i as int]);
                    assert(decreases_to!(*value => (*value)->0));
                    assert(decreases_to!(*entries => entries@));
                    assert(decreases_to!(entries@ => entries@[i as int]));
                    assert(decreases_to!(entries@[i as int] => entries@[i as int].1));
                }
                let nested_property: Option<String> = Some(
                    create_property_uri(normalized_ns.as_str(), key.as_str()),
                );
                process_value(
                    subject_stack,
                    &nested_property,
                    val,
                    out,
                    normalized_ns.as_str(),
                    blank_node_counter,
                );
                proof {
                    assert(out.deep_view() =~= out1 + entries_triples(
                        subject,
                        normalized_ns@,
                        entries@.take(i + 1),
                        id as nat + 1,
                    ));
                }
                i = i + 1;
            }
            proof {
                assert(entries@.take(n as int) =~= entries@);
            }
            subject_stack.pop();
            proof {
                assert(subject_stack@ =~= stack0);
            }
        },
        JsonValue::Array(items) => {
            let ghost out0 = out.deep_view();
            let ghost c0 = *blank_node_counter;
            let ghost subject = last_subject@;
            let n: usize = items.len();
            let mut i: usize = 0;
            while i < n
                invariant
                    0 <= i <= n,
                    n == items@.len(),
                    subject_stack@ == old(subject_stack)@,
                    subject_stack@.len() > 0,
                    subject == subject_stack@.last()@,
                    c0 + items_blank_count(items@) <= u64::MAX,
                    *blank_node_counter == c0 + items_blank_count(items@.take(i as int)),
                    out.deep_view() == out0 + items_triples(
                        subject,
                        prop@,
                        normalized_ns@,
                        items@.take(i as int),
                        c0 as nat,
                    ),
                    normalized_ns@ == normalized_namespace(namespace@),
                    *value == JsonValue::Array(*items),
                    property is Some,
                    property->0 == *prop,
                decreases n - i,
            {
                proof {
                    lemma_items_count_prefix(items@, i + 1);
                    assert(items@.take(i + 1).drop_last() =~= items@.take(i as int));
                    assert(items@.take(i + 1).last() == items@[i as int]);
                    assert(decreases_to!(*value => (*value)->Array_0));
                    assert(decreases_to!(*items => items@));
                    assert(decreases_to!(items@ => items@[i as int]));
                }
                process_value(
                    subject_stack,
                    property,
                    &items[i],
                    out,
                    normalized_ns.as_str(),
                    blank_node_counter,
                );
                proof {
                    assert(out.deep_view() =~= out0 + items_triples(
                        subject,
                        prop@,
                        normalized_ns@,
                        items@.take(i + 1),
                        c0 as nat,
                    ));
                }
                i = i + 1;
            }
            proof {
                assert(items@.take(n as int) =~= items@);
            }
        },
    }
}

/// The IRI that names the root object of a stream: the namespace without its trailing
/// `#`s, then `#`, then the lower-case hexadecimal `DefaultHasher` digest of `text`.
pub open spec fn root_iri(ns: Seq<char>, text: Seq<char>) -> Seq<char> {
    strip_trailing(ns, '#').push('#') + lower_hex(default_hasher_digest(text) as nat)
}

/// The subject that a top-level object describes: the root IRI for the first object of
/// the stream, the blank node numbered `next` for the later ones.
pub open spec fn document_subject(ns: Seq<char>, is_root: bool, next: nat, text: Seq<char>) -> NodeView {
    if is_root {
        NodeView::Iri(root_iri(ns, text))
    } else {
        NodeView::Blank(next)
    }
}

/// The triples of a top-level JSON value of a stream. An object is described by its
/// document subject, its members stated under the properties its keys name within `ns`;
/// any other top-level value states nothing.
pub open spec fn document_triples(
    ns: Seq<char>,
    is_root: bool,
    next: nat,
    v: JsonValue,
    text: Seq<char>,
) -> Seq<TripleView> {
    match v {
        JsonValue::Object(entries) => entries_triples(
            document_subject(ns, is_root, next, text),
            ns,
            entries@,
            if is_root {
                next
            } else {
                next + 1
            },
        ),
        _ => Seq::empty(),
    }
}

/// How many blank nodes the conversion of a top-level value names.
pub open spec fn document_blank_count(is_root: bool, v: JsonValue) -> nat {
    match v {
        JsonValue::Object(entries) => (if is_root {
            0nat
        } else {
            1nat
        }) + entries_blank_count(entries@),
        _ => 0,
    }
}

/// The state of the conversion of a stream of JSON values: the normalised namespace,
/// the last property named, whether the root object is still to come, and the number of
/// the next blank node.
pub struct Converter {
    namespace: String,
    property: Option<String>,
    is_root: bool,
    blank_node_counter: u64,
}

impl Converter {
    /// The normalised namespace in which properties are named.
    pub closed spec fn namespace(&self) -> Seq<char> {
        self.namespace@
    }

    /// Whether the next top-level object is the root object.
    pub closed spec fn expects_root(&self) -> bool {
        self.is_root
    }

    /// The number of the next blank node.
    pub closed spec fn next_blank(&self) -> nat {
        self.blank_node_counter as nat
    }

    /// A converter for a new stream; properties are named within `namespace`, or within
    /// `https://purl.org/wiser/json2rdf/model` when it is `None`, after normalisation.
    pub fn new(namespace: &Option<String>) -> (c: Converter)
        ensures
            c.namespace() == normalized_namespace(
                match namespace {
                    Some(ns) => ns@,
                    None => "https://purl.org/wiser/json2rdf/model"@,
                },
            ),
            normalized_namespace(c.namespace()) == c.namespace(),
            c.expects_root(),
            c.next_blank() == 0,
    {
        let ns = match namespace {
            Some(ns) => normalize_namespace(ns.as_str()),
            None => normalize_namespace("https://purl.org/wiser/json2rdf/model"),
        };
        proof {
            lemma_normalize_idempotent(
                match namespace {
                    Some(n) => n@,
                    None => "https://purl.org/wiser/json2rdf/model"@,
                },
            );
        }
        Converter { namespace: ns, property: None, is_root: true, blank_node_counter: 0 }
    }

    /// Whether the next top-level object is the root object.
    pub fn awaits_root(&self) -> (r: bool)
        ensures
            r == self.expects_root(),
    {
        self.is_root
    }

    /// Whether converting `value` next keeps the blank node numbers within `u64`.
    pub fn can_convert(&self, value: &JsonValue) -> (r: bool)
        ensures
            r == (self.next_blank() + document_blank_count(self.expects_root(), *value)
                <= u64::MAX),
    {
        match value {
            JsonValue::Object(entries) => {
                let first: u64 = if self.is_root {
                    0
                } else {
                    1
                };
                match checked_entries_blank_count(entries) {
                    Some(n) => n <= u64::MAX - first && self.blank_node_counter <= u64::MAX - first
                        - n,
                    None => false,
                }
            },
            _ => true,
        }
    }

    /// Converts the next top-level value of the stream into triples. `text` is the value
    /// written as compact JSON; it is read only when `value` is the root object, whose
    /// IRI it names.
    pub fn convert(&mut self, value: &JsonValue, text: &str) -> (triples: Vec<Triple>)
        requires
            old(self).next_blank() + document_blank_count(old(self).expects_root(), *value)
                <= u64::MAX,
        ensures
            triples.deep_view() == document_triples(
                old(self).namespace(),
                old(self).expects_root(),
                old(self).next_blank(),
                *value,
                text@,
            ),
            final(self).namespace() == old(self).namespace(),
            final(self).expects_root() == (old(self).expects_root() && !(*value is Object)),
            final(self).next_blank() == old(self).next_blank() + document_blank_count(
                old(self).expects_root(),
                *value,
            ),
    {
        let mut out: Vec<Triple> = Vec::new();
        let mut stack: Vec<Node> = Vec::new();
        let mut counter: u64 = self.blank_node_counter;
        match value {
            JsonValue::Object(entries) => {
                let subject = if self.is_root {
                    self.is_root = false;
                    let hash_hex = compute_stable_hash(text);
                    let mut root = with_hash_separator(self.namespace.as_str());
                    root.append(hash_hex.as_str());
                    Node::Iri(root)
                } else {
                    let id: u64 = counter;
                    counter = counter + 1;
                    Node::Blank(id)
                };
                let ghost subject_view = subject@;
                let ghost start = counter as nat;
                stack.push(subject);
                let n: usize = entries.len();
                let mut i: usize = 0;
                while i < n
                    invariant
                        0 <= i <= n,
                        n == entries@.len(),
                        stack@.len() == 1,
                        stack@[0]@ == subject_view,
                        start + entries_blank_count(entries@) <= u64::MAX,
                        counter == start + entries_blank_count(entries@.take(i as int)),
                        out.deep_view() == entries_triples(
                            subject_view,
                            self.namespace@,
                            entries@.take(i as int),
                            start,
                        ),
                        self.namespace == old(self).namespace,
                        !self.is_root,
                        self.blank_node_counter == old(self).blank_node_counter,
                        subject_view == document_subject(
                            old(self).namespace@,
                            old(self).is_root,
                            old(self).blank_node_counter as nat,
                            text@,
                        ),
                        start == if old(self).is_root {
                            old(self).blank_node_counter as nat
                        } else {
                            old(self).blank_node_counter as nat + 1
                        },
                        *value == JsonValue::Object(*entries),
                    decreases n - i,
                {
                    let (key, val) = &entries[i];
                    proof {
                        lemma_entries_count_prefix(entries@, i + 1);
                        assert(entries@.take(i + 1).drop_last() =~= entries@.take(i as int));
                        assert(entries@.take(i + 1).last() == entries@[i as int]);
                    }
                    self.property = Some(create_property_uri(self.namespace.as_str(), key.as_str()));
                    process_value(
                        &mut stack,
                        &self.property,
                        val,
                        &mut out,
                        self.namespace.as_str(),
                        &mut counter,
                    );
                    proof {
                        assert(out.deep_view() =~= entries_triples(
                            subject_view,
                            self.namespace@,
                            entries@.take(i + 1),
                            start,
                        ));
                    }
                    i = i + 1;
                }
                proof {
                    assert(entries@.take(n as int) =~= entries@);
                }
                stack.pop();
            },
            JsonValue::Array(items) => {
                let n: usize = items.len();
                let mut i: usize = 0;
                while i < n
                    invariant
                        0 <= i <= n,
                        n == items@.len(),
                        stack@.len() == 0,
                        out.deep_view() == Seq::<TripleView>::empty(),
                        counter == old(self).blank_node_counter,
                        *self == *old(self),
                    decreases n - i,
                {
                    process_value(
                        &mut stack,
                        &self.property,
                        &items[i],
                        &mut out,
                        self.namespace.as_str(),
                        &mut counter,
                    );
                    i = i + 1;
                }
            },
            _ => {
                process_value(
                    &mut stack,
                    &self.property,
                    value,
                    &mut out,
                    self.namespace.as_str(),
                    &mut counter,
                );
            },
        }
        self.blank_node_counter = counter;
        out
    }
}

/// The number of JSON objects `v` holds, or `None` when it exceeds `u64::MAX`.
fn checked_blank_count(v: &JsonValue) -> (r: Option<u64>)
    ensures
        r matches Some(n) ==> n == blank_count(*v),
        r is None ==> blank_count(*v) > u64::MAX,
    decreases v,
{
    match v {
        JsonValue::Object(entries) => {
            proof {
                assert(decreases_to!(*v => (*v)->Object_0));
            }
            match checked_entries_blank_count(entries) {
                Some(n) => if n < u64::MAX {
                    Some(n + 1)
                } else {
                    None
                },
                None => None,
            }
        },
        JsonValue::Array(items) => {
            let n: usize = items.len();
            let mut total: u64 = 0;
            let mut i: usize = 0;
            while i < n
                invariant
                    0 <= i <= n,
                    n == items@.len(),
                    total == items_blank_count(items@.take(i as int)),
                    *v == JsonValue::Array(*items),
                decreases n - i,
            {
                proof {
                    assert(items@.take(i + 1).drop_last() =~= items@.take(i as int));
                    assert(items@.take(i + 1).last() == items@[i as int]);
                    assert(decreases_to!(*v => (*v)->Array_0));
                    assert(decreases_to!(*items => items@));
                    assert(decreases_to!(items@ => items@[i as int]));
                }
                match checked_blank_count(&items[i]) {
                    Some(c) => if c <= u64::MAX - total {
                        total = total + c;
                    } else {
                        proof {
                            lemma_items_count_prefix(items@, i + 1);
                        }
                        return None;
                    },
                    None => {
                        proof {
                            lemma_items_count_prefix(items@, i + 1);
                        }
                        return None;
                    },
                }
                i = i + 1;
            }
            proof {
                assert(items@.take(n as int) =~= items@);
            }
            Some(total)
        },
        _ => Some(0),
    }
}

/// The number of JSON objects the member values of `entries` hold, or `None` when it
/// exceeds `u64::MAX`.
fn checked_entries_blank_count(entries: &Vec<(String, JsonValue)>) -> (r: Option<u64>)
    ensures
        r matches Some(n) ==> n == entries_blank_count(entries@),
        r is None ==> entries_blank_count(entries@) > u64::MAX,
    decreases entries@,
{
    let n: usize = entries.len();
    let mut total: u64 = 0;
    let mut i: usize = 0;
    while i < n
        invariant
            0 <= i <= n,
            n == entries@.len(),
            total == entries_blank_count(entries@.take(i as int)),
        decreases n - i,
    {
        proof {
            assert(entries@.take(i + 1).drop_last() =~= entries@.take(i as int));
            assert(entries@.take(i + 1).last() == entries@[i as int]);
            assert(decreases_to!(entries@ => entries@[i as int]));
            assert(decreases_to!(entries@[i as int] => entries@[i as int].1));
        }
        match checked_blank_count(&entries[i].1) {
            Some(c) => if c <= u64::MAX - total {
                total = total + c;
            } else {
                proof {
                    lemma_entries_count_prefix(entries@, i + 1);
                }
                return None;
            },
            None => {
                proof {
                    lemma_entries_count_prefix(entries@, i + 1);
                }
                return None;
            },
        }
        i = i + 1;
    }
    proof {
        assert(entries@.take(n as int) =~= entries@);
    }
    Some(total)
}

/// Whether `n` is a blank node numbered in `[lo, hi)`, or not a blank node.
pub open spec fn blank_in(n: NodeView, lo: nat, hi: nat) -> bool {
    n matches NodeView::Blank(b) ==> lo <= b < hi
}

/// Whether every blank node of `t` is numbered in `[lo, hi)`, its subject being `outer` aside.
pub open spec fn triple_nodes_within(t: TripleView, outer: NodeView, lo: nat, hi: nat) -> bool {
    &&& (t.subject == outer || blank_in(t.subject, lo, hi))
    &&& (t.object matches TermView::Node(o) ==> blank_in(o, lo, hi))
}

/// Whether every blank node of `ts` is numbered in `[lo, hi)`, subjects equal to `outer` aside.
pub open spec fn nodes_within(ts: Seq<TripleView>, outer: NodeView, lo: nat, hi: nat) -> bool {
    forall|i: int| 0 <= i < ts.len() ==> #[trigger] triple_nodes_within(ts[i], outer, lo, hi)
}

/// Whether every blank node that occurs in `ts` is numbered in `[lo, hi)`.
pub open spec fn blank_ids_within(ts: Seq<TripleView>, lo: nat, hi: nat) -> bool {
    forall|i: int|
        0 <= i < ts.len() ==> blank_in(#[trigger] ts[i].subject, lo, hi) && (ts[i].object matches TermView::Node(
            o,
        ) ==> blank_in(o, lo, hi))
}

proof fn lemma_nodes_within_concat(
    a: Seq<TripleView>,
    b: Seq<TripleView>,
    outer: NodeView,
    lo: nat,
    mid: nat,
    hi: nat,
)
    requires
        lo <= mid <= hi,
        nodes_within(a, outer, lo, mid),
        nodes_within(b, outer, mid, hi),
    ensures
        nodes_within(a + b, outer, lo, hi),
{
    assert forall|i: int| 0 <= i < (a + b).len() implies #[trigger] triple_nodes_within(
        (a + b)[i],
        outer,
        lo,
        hi,
    ) by {
        if i < a.len() {
            assert(triple_nodes_within(a[i], outer, lo, mid));
        } else {
            assert(triple_nodes_within(b[i - a.len()], outer, mid, hi));
        }
    }
}

proof fn lemma_value_nodes_within(
    subject: NodeView,
    property: Seq<char>,
    ns: Seq<char>,
    v: JsonValue,
    next: nat,
)
    ensures
        nodes_within(
            value_triples(subject, property, ns, v, next),
            subject,
            next,
            next + blank_count(v),
        ),
    decreases v,
{
    let ts = value_triples(subject, property, ns, v, next);
    match v {
        JsonValue::Object(entries) => {
            assert(decreases_to!(v => v->Object_0));
            let inner = NodeView::Blank(next);
            lemma_entries_nodes_within(inner, normalized_namespace(ns), entries@, next + 1);
            let rest = entries_triples(inner, normalized_namespace(ns), entries@, next + 1);
            let first = seq![
                TripleView { subject, predicate: property, object: TermView::Node(inner) },
            ];
            assert forall|i: int| 0 <= i < ts.len() implies #[trigger] triple_nodes_within(
                ts[i],
                subject,
                next,
                next + blank_count(v),
            ) by {
                if i == 0 {
                    assert(ts[i] == first[0]);
                } else {
                    assert(ts[i] == rest[i - 1]);
                    assert(triple_nodes_within(rest[i - 1], inner, next + 1, next + blank_count(v)));
                }
            }
        },
        JsonValue::Array(items) => {
            assert(decreases_to!(v => v->Array_0));
            lemma_items_nodes_within(subject, property, normalized_namespace(ns), items@, next);
        },
        _ => {},
    }
}

proof fn lemma_items_nodes_within(
    subject: NodeView,
    property: Seq<char>,
    ns: Seq<char>,
    items: Seq<JsonValue>,
    next: nat,
)
    ensures
        nodes_within(
            items_triples(subject, property, ns, items, next),
            subject,
            next,
            next + items_blank_count(items),
        ),
    decreases items,
{
    if items.len() > 0 {
        let mid = next + items_blank_count(items.drop_last());
        lemma_items_nodes_within(subject, property, ns, items.drop_last(), next);
        lemma_value_nodes_within(subject, property, ns, items.last(), mid);
        lemma_nodes_within_concat(
            items_triples(subject, property, ns, items.drop_last(), next),
            value_triples(subject, property, ns, items.last(), mid),
            subject,
            next,
            mid,
            next + items_blank_count(items),
        );
    }
}

proof fn lemma_entries_nodes_within(
    subject: NodeView,
    ns: Seq<char>,
    entries: Seq<(String, JsonValue)>,
    next: nat,
)
    ensures
        nodes_within(
            entries_triples(subject, ns, entries, next),
            subject,
            next,
            next + entries_blank_count(entries),
        ),
    decreases entries,
{
    if entries.len() > 0 {
        let mid = next + entries_blank_count(entries.drop_last());
        let property = property_uri(ns, entries.last().0@);
        lemma_entries_nodes_within(subject, ns, entries.drop_last(), next);
        lemma_value_nodes_within(subject, property, ns, entries.last().1, mid);
        lemma_nodes_within_concat(
            entries_triples(subject, ns, entries.drop_last(), next),
            value_triples(subject, property, ns, entries.last().1, mid),
            subject,
            next,
            mid,
            next + entries_blank_count(entries),
        );
    }
}

/// The blank nodes of the triples of a top-level value are numbered from `next` on, below
/// `next` plus the number of blank nodes its conversion names: the blank nodes of one
/// value of a stream never meet those of another.
pub proof fn lemma_document_blank_nodes_fresh(
    ns: Seq<char>,
    is_root: bool,
    next: nat,
    v: JsonValue,
    text: Seq<char>,
)
    ensures
        blank_ids_within(
            document_triples(ns, is_root, next, v, text),
            next,
            next + document_blank_count(is_root, v),
        ),
{
    let ts = document_triples(ns, is_root, next, v, text);
    let hi = next + document_blank_count(is_root, v);
    if let JsonValue::Object(entries) = v {
        let subject = document_subject(ns, is_root, next, text);
        let start = if is_root {
            next
        } else {
            next + 1
        };
        lemma_entries_nodes_within(subject, ns, entries@, start);
        assert forall|i: int| 0 <= i < ts.len() implies blank_in(#[trigger] ts[i].subject, next, hi)
            && (ts[i].object matches TermView::Node(o) ==> blank_in(o, next, hi)) by {
            assert(triple_nodes_within(ts[i], subject, start, hi));
        }
    }
}

/// The number of the blank node that `t` links to, if its object is a blank node.
pub open spec fn object_blank(t: TripleView) -> Option<nat> {
    match t.object {
        TermView::Node(NodeView::Blank(b)) => Some(b),
        _ => None,
    }
}

/// Whether no two triples of `ts` link to the same blank node.
pub open spec fn distinct_blank_objects(ts: Seq<TripleView>) -> bool {
    forall|i: int, j: int|
        0 <= i < ts.len() && 0 <= j < ts.len() && i != j && #[trigger] object_blank(ts[i]) is Some
            ==> object_blank(ts[i]) != #[trigger] object_blank(ts[j])
}

/// Whether a triple from a blank node to a blank node links to a higher number.
pub open spec fn links_forward(t: TripleView) -> bool {
    match t.subject {
        NodeView::Blank(a) => match object_blank(t) {
            Some(b) => a < b,
            None => true,
        },
        _ => true,
    }
}

/// Whether every link of `ts` between blank nodes goes to a higher number, so that no
/// node is its own descendant.
pub open spec fn all_links_forward(ts: Seq<TripleView>) -> bool {
    forall|i: int| 0 <= i < ts.len() ==> #[trigger] links_forward(ts[i])
}

/// Whether the blank node that `t` links to, if any, is numbered in `[lo, hi)`.
pub open spec fn object_in(t: TripleView, lo: nat, hi: nat) -> bool {
    match object_blank(t) {
        Some(b) => lo <= b < hi,
        None => true,
    }
}

/// Whether the blank nodes that `ts` links to are numbered in `[lo, hi)`.
pub open spec fn objects_within(ts: Seq<TripleView>, lo: nat, hi: nat) -> bool {
    forall|i: int| 0 <= i < ts.len() ==> #[trigger] object_in(ts[i], lo, hi)
}

proof fn lemma_objects_within(ts: Seq<TripleView>, outer: NodeView, lo: nat, hi: nat)
    requires
        nodes_within(ts, outer, lo, hi),
    ensures
        objects_within(ts, lo, hi),
{
    assert forall|i: int| 0 <= i < ts.len() implies #[trigger] object_in(ts[i], lo, hi) by {
        assert(triple_nodes_within(ts[i], outer, lo, hi));
    }
}

proof fn lemma_tree_concat(x: Seq<TripleView>, y: Seq<TripleView>, lo: nat, mid: nat, hi: nat)
    requires
        lo <= mid <= hi,
        distinct_blank_objects(x),
        distinct_blank_objects(y),
        all_links_forward(x),
        all_links_forward(y),
        objects_within(x, lo, mid),
        objects_within(y, mid, hi),
    ensures
        distinct_blank_objects(x + y),
        all_links_forward(x + y),
        objects_within(x + y, lo, hi),
{
    let z = x + y;
    assert forall|i: int, j: int|
        0 <= i < z.len() && 0 <= j < z.len() && i != j && #[trigger] object_blank(z[i]) is Some
            implies object_blank(z[i]) != #[trigger] object_blank(z[j]) by {
        if i < x.len() {
            assert(z[i] == x[i]);
            assert(object_in(x[i], lo, mid));
        } else {
            assert(z[i] == y[i - x.len()]);
            assert(object_in(y[i - x.len()], mid, hi));
        }
        if j < x.len() {
            assert(z[j] == x[j]);
            assert(object_in(x[j], lo, mid));
        } else {
            assert(z[j] == y[j - x.len()]);
            assert(object_in(y[j - x.len()], mid, hi));
        }
    }
    assert forall|i: int| 0 <= i < z.len() implies #[trigger] links_forward(z[i]) by {
        if i < x.len() {
            assert(z[i] == x[i]);
        } else {
            assert(z[i] == y[i - x.len()]);
        }
    }
    assert forall|i: int| 0 <= i < z.len() implies #[trigger] object_in(z[i], lo, hi) by {
        if i < x.len() {
            assert(z[i] == x[i]);
            assert(object_in(x[i], lo, mid));
        } else {
            assert(z[i] == y[i - x.len()]);
            assert(object_in(y[i - x.len()], mid, hi));
        }
    }
}

proof fn lemma_value_tree(subject: NodeView, property: Seq<char>, ns: Seq<char>, v: JsonValue, next: nat)
    requires
        subject matches NodeView::Blank(a) ==> a < next,
    ensures
        distinct_blank_objects(value_triples(subject, property, ns, v, next)),
        all_links_forward(value_triples(subject, property, ns, v, next)),
        objects_within(value_triples(subject, property, ns, v, next), next, next + blank_count(v)),
    decreases v,
{
    let ts = value_triples(subject, property, ns, v, next);
    lemma_value_nodes_within(subject, property, ns, v, next);
    lemma_objects_within(ts, subject, next, next + blank_count(v));
    match v {
        JsonValue::Object(entries) => {
            assert(decreases_to!(v => v->Object_0));
            let inner = NodeView::Blank(next);
            let first = seq![
                TripleView { subject, predicate: property, object: TermView::Node(inner) },
            ];
            let rest = entries_triples(inner, normalized_namespace(ns), entries@, next + 1);
            lemma_entries_tree(inner, normalized_namespace(ns), entries@, next + 1);
            assert(distinct_blank_objects(first));
            assert(links_forward(first[0]));
            assert(object_blank(first[0]) == Some(next));
            lemma_tree_concat(first, rest, next, next + 1, next + blank_count(v));
            assert(ts == first + rest);
        },
        JsonValue::Array(items) => {
            assert(decreases_to!(v => v->Array_0));
            lemma_items_tree(subject, property, normalized_namespace(ns), items@, next);
        },
        _ => {
            if ts.len() > 0 {
                assert(object_blank(ts[0]) is None);
            }
        },
    }
}

proof fn lemma_items_tree(
    subject: NodeView,
    property: Seq<char>,
    ns: Seq<char>,
    items: Seq<JsonValue>,
    next: nat,
)
    requires
        subject matches NodeView::Blank(a) ==> a < next,
    ensures
        distinct_blank_objects(items_triples(subject, property, ns, items, next)),
        all_links_forward(items_triples(subject, property, ns, items, next)),
        objects_within(items_triples(subject, property, ns, items, next), next, next + items_blank_count(items)),
    decreases items,
{
    if items.len() > 0 {
        let mid = next + items_blank_count(items.drop_last());
        lemma_items_tree(subject, property, ns, items.drop_last(), next);
        lemma_value_tree(subject, property, ns, items.last(), mid);
        lemma_tree_concat(
            items_triples(subject, property, ns, items.drop_last(), next),
            value_triples(subject, property, ns, items.last(), mid),
            next,
            mid,
            next + items_blank_count(items),
        );
    }
}

proof fn lemma_entries_tree(
    subject: NodeView,
    ns: Seq<char>,
    entries: Seq<(String, JsonValue)>,
    next: nat,
)
    requires
        subject matches NodeView::Blank(a) ==> a < next,
    ensures
        distinct_blank_objects(entries_triples(subject, ns, entries, next)),
        all_links_forward(entries_triples(subject, ns, entries, next)),
        objects_within(entries_triples(subject, ns, entries, next), next, next + entries_blank_count(entries)),
    decreases entries,
{
    if entries.len() > 0 {
        let mid = next + entries_blank_count(entries.drop_last());
        let property = property_uri(ns, entries.last().0@);
        lemma_entries_tree(subject, ns, entries.drop_last(), next);
        lemma_value_tree(subject, property, ns, entries.last().1, mid);
        lemma_tree_concat(
            entries_triples(subject, ns, entries.drop_last(), next),
            value_triples(subject, property, ns, entries.last().1, mid),
            next,
            mid,
            next + entries_blank_count(entries),
        );
    }
}

/// Every JSON object gets a blank node of its own: no two triples of a top-level value link
/// to the same blank node, and each link between blank nodes goes from a parent to a child
/// numbered after it, so no object is merged into the one that holds it.
pub proof fn lemma_document_blank_nodes_distinct(
    ns: Seq<char>,
    is_root: bool,
    next: nat,
    v: JsonValue,
    text: Seq<char>,
)
    ensures
        distinct_blank_objects(document_triples(ns, is_root, next, v, text)),
        all_links_forward(document_triples(ns, is_root, next, v, text)),
{
    if let JsonValue::Object(entries) = v {
        lemma_entries_tree(
            document_subject(ns, is_root, next, text),
            ns,
            entries@,
            if is_root {
                next
            } else {
                next + 1
            },
        );
    }
}

proof fn lemma_entries_contains(
    subject: NodeView,
    ns: Seq<char>,
    entries: Seq<(String, JsonValue)>,
    next: nat,
    k: int,
) -> (o: int)
    requires
        0 <= k < entries.len(),
    ensures
        0 <= o,
        o + value_triples(
            subject,
            property_uri(ns, entries[k].0@),
            ns,
            entries[k].1,
            next + entries_blank_count(entries.take(k)),
        ).len() <= entries_triples(subject, ns, entries, next).len(),
        forall|j: int|
            0 <= j < value_triples(
                subject,
                property_uri(ns, entries[k].0@),
                ns,
                entries[k].1,
                next + entries_blank_count(entries.take(k)),
            ).len() ==> entries_triples(subject, ns, entries, next)[o + j] == #[trigger] value_triples(
                subject,
                property_uri(ns, entries[k].0@),
                ns,
                entries[k].1,
                next + entries_blank_count(entries.take(k)),
            )[j],
    decreases entries.len(),
{
    let prefix = entries_triples(subject, ns, entries.drop_last(), next);
    let ts = entries_triples(subject, ns, entries, next);
    if k == entries.len() - 1 {
        assert(entries.take(k) =~= entries.drop_last());
        assert(entries[k] == entries.last());
        prefix.len() as int
    } else {
        assert(entries.drop_last().take(k) =~= entries.take(k));
        assert(entries.drop_last()[k] == entries[k]);
        let o = lemma_entries_contains(subject, ns, entries.drop_last(), next, k);
        let vt = value_triples(
            subject,
            property_uri(ns, entries[k].0@),
            ns,
            entries[k].1,
            next + entries_blank_count(entries.take(k)),
        );
        assert forall|j: int| 0 <= j < vt.len() implies ts[o + j] == #[trigger] vt[j] by {
            assert(ts[o + j] == prefix[o + j]);
        }
        o
    }
}

/// Each member of a top-level object is stated for the object's subject under the property
/// its own key names, which decodes back to the key: a string becomes the `xsd:string`
/// literal of that very string (the empty one too), a boolean the `xsd:boolean` literal
/// `true` or `false`, a number read as an `i64` the `xsd:int` literal and otherwise one read
/// as an `f64` the `xsd:float` literal of its text, and a nested object a link to a blank node.
pub proof fn lemma_document_member(
    ns: Seq<char>,
    is_root: bool,
    next: nat,
    v: JsonValue,
    text: Seq<char>,
    k: int,
)
    requires
        v is Object,
        0 <= k < v->Object_0@.len(),
    ensures
        ({
            let key = v->Object_0@[k].0@;
            let value = v->Object_0@[k].1;
            let ts = document_triples(ns, is_root, next, v, text);
            let subject = document_subject(ns, is_root, next, text);
            let p = property_uri(ns, key);
            let has = |object: TermView|
                exists|i: int|
                    0 <= i < ts.len() && #[trigger] ts[i] == TripleView {
                        subject,
                        predicate: p,
                        object,
                    };
            &&& decode_utf8(percent_decode(p.skip(normalized_namespace(ns).len() as int))) == key
            &&& value matches JsonValue::String(x) ==> has(TermView::Literal(x@, XsdType::String))
            &&& value matches JsonValue::Bool(b) ==> has(
                TermView::Literal(
                    if b {
                        "true"@
                    } else {
                        "false"@
                    },
                    XsdType::Boolean,
                ),
            )
            &&& value matches JsonValue::Number(n) ==> (n.is_i64 ==> has(
                TermView::Literal(n.text@, XsdType::Int),
            )) && (!n.is_i64 && n.is_f64 ==> has(TermView::Literal(n.text@, XsdType::Float)))
            &&& value is Object ==> exists|b: nat| has(TermView::Node(NodeView::Blank(b)))
        }),
{
    let entries = v->Object_0@;
    let start = if is_root {
        next
    } else {
        next + 1
    };
    let subject = document_subject(ns, is_root, next, text);
    let key = entries[k].0@;
    let p = property_uri(ns, key);
    lemma_property_uri_decodes(ns, key);
    let o = lemma_entries_contains(subject, ns, entries, start, k);
    let ts = document_triples(ns, is_root, next, v, text);
    let vt = value_triples(subject, p, ns, entries[k].1, start + entries_blank_count(entries.take(k)));
    assert(ts == entries_triples(subject, ns, entries, start));
    if vt.len() > 0 {
        assert(ts[o + 0] == vt[0]);
    }
    match entries[k].1 {
        JsonValue::Object(inner) => {
            let b = start + entries_blank_count(entries.take(k));
            assert(vt[0] == TripleView {
                subject,
                predicate: p,
                object: TermView::Node(NodeView::Blank(b)),
            });
        },
        _ => {},
    }
}

/// The root object is named within the namespace: the normalised namespace followed by
/// the hexadecimal digest of the object's text.
pub proof fn lemma_root_iri_in_namespace(ns: Seq<char>, text: Seq<char>)
    requires
        normalized_namespace(ns) == ns,
    ensures
        root_iri(ns, text) == ns + lower_hex(default_hasher_digest(text) as nat),
{
    lemma_normalized_separator(ns);
}

/// Whether `p` is the IRI of some property within the namespace `ns`: `ns` followed by
/// a percent-encoded key.
pub open spec fn is_property_of(p: Seq<char>, ns: Seq<char>) -> bool {
    exists|key: Seq<char>| p == ns + url_encoded(key)
}

/// Whether every predicate of `ts` is a property within `ns`.
pub open spec fn predicates_within(ts: Seq<TripleView>, ns: Seq<char>) -> bool {
    forall|i: int| 0 <= i < ts.len() ==> is_property_of(#[trigger] ts[i].predicate, ns)
}

proof fn lemma_predicates_concat(a: Seq<TripleView>, b: Seq<TripleView>, ns: Seq<char>)
    requires
        predicates_within(a, ns),
        predicates_within(b, ns),
    ensures
        predicates_within(a + b, ns),
{
    assert forall|i: int| 0 <= i < (a + b).len() implies is_property_of(
        #[trigger] (a + b)[i].predicate,
        ns,
    ) by {
        if i < a.len() {
            assert((a + b)[i] == a[i]);
        } else {
            assert((a + b)[i] == b[i - a.len()]);
        }
    }
}

proof fn lemma_property_uri_is_property(ns: Seq<char>, key: Seq<char>)
    requires
        normalized_namespace(ns) == ns,
    ensures
        is_property_of(property_uri(ns, key), ns),
{
    lemma_property_uri_in_namespace(ns, key);
}

proof fn lemma_value_predicates(
    subject: NodeView,
    property: Seq<char>,
    ns: Seq<char>,
    v: JsonValue,
    next: nat,
)
    requires
        normalized_namespace(ns) == ns,
        is_property_of(property, ns),
    ensures
        predicates_within(value_triples(subject, property, ns, v, next), ns),
    decreases v,
{
    let ts = value_triples(subject, property, ns, v, next);
    match v {
        JsonValue::Object(entries) => {
            assert(decreases_to!(v => v->Object_0));
            let inner = NodeView::Blank(next);
            lemma_entries_predicates(inner, ns, entries@, next + 1);
            let rest = entries_triples(inner, ns, entries@, next + 1);
            assert forall|i: int| 0 <= i < ts.len() implies is_property_of(
                #[trigger] ts[i].predicate,
                ns,
            ) by {
                if i > 0 {
                    assert(ts[i] == rest[i - 1]);
                }
            }
        },
        JsonValue::Array(items) => {
            assert(decreases_to!(v => v->Array_0));
            lemma_items_predicates(subject, property, ns, items@, next);
        },
        _ => {},
    }
}

proof fn lemma_items_predicates(
    subject: NodeView,
    property: Seq<char>,
    ns: Seq<char>,
    items: Seq<JsonValue>,
    next: nat,
)
    requires
        normalized_namespace(ns) == ns,
        is_property_of(property, ns),
    ensures
        predicates_within(items_triples(subject, property, ns, items, next), ns),
    decreases items,
{
    if items.len() > 0 {
        let mid = next + items_blank_count(items.drop_last());
        lemma_items_predicates(subject, property, ns, items.drop_last(), next);
        lemma_value_predicates(subject, property, ns, items.last(), mid);
        lemma_predicates_concat(
            items_triples(subject, property, ns, items.drop_last(), next),
            value_triples(subject, property, ns, items.last(), mid),
            ns,
        );
    }
}

proof fn lemma_entries_predicates(
    subject: NodeView,
    ns: Seq<char>,
    entries: Seq<(String, JsonValue)>,
    next: nat,
)
    requires
        normalized_namespace(ns) == ns,
    ensures
        predicates_within(entries_triples(subject, ns, entries, next), ns),
    decreases entries,
{
    if entries.len() > 0 {
        let mid = next + entries_blank_count(entries.drop_last());
        let property = property_uri(ns, entries.last().0@);
        lemma_property_uri_is_property(ns, entries.last().0@);
        lemma_entries_predicates(subject, ns, entries.drop_last(), next);
        lemma_value_predicates(subject, property, ns, entries.last().1, mid);
        lemma_predicates_concat(
            entries_triples(subject, ns, entries.drop_last(), next),
            value_triples(subject, property, ns, entries.last().1, mid),
            ns,
        );
    }
}

/// Every predicate of the triples of a top-level value is a property within the
/// (normalised) namespace: the namespace followed by a percent-encoded JSON key.
pub proof fn lemma_document_predicates_in_namespace(
    ns: Seq<char>,
    is_root: bool,
    next: nat,
    v: JsonValue,
    text: Seq<char>,
)
    requires
        normalized_namespace(ns) == ns,
    ensures
        predicates_within(document_triples(ns, is_root, next, v, text), ns),
{
    if let JsonValue::Object(entries) = v {
        lemma_entries_predicates(
            document_subject(ns, is_root, next, text),
            ns,
            entries@,
            if is_root {
                next
            } else {
                next + 1
            },
        );
    }
}

} // verus!
