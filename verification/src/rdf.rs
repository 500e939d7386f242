//! The RDF terms and triples the conversion produces, and their N-Triples text.

use vstd::prelude::*;
use crate::text::{decimal, push_char, push_decimal, upper_hex_digit, lemma_decimal_injective};

verus! {

/// The datatypes of the literals the conversion produces.
#[derive(Clone, Copy, Debug, PartialEq, Eq, Structural)]
pub enum XsdType {
    Boolean,
    Int,
    Float,
    String,
}

/// A subject or object node: a named node (an IRI) or the blank node labelled `b<n>`.
#[derive(Clone, Debug, PartialEq, Eq)]
pub enum Node {
    Iri(String),
    Blank(u64),
}

/// The object of a triple: a node, or a literal with its lexical value and datatype.
#[derive(Clone, Debug, PartialEq, Eq)]
pub enum Term {
    Node(Node),
    Literal(String, XsdType),
}

/// An RDF triple.
#[derive(Clone, Debug, PartialEq, Eq)]
pub struct Triple {
    pub subject: Node,
    pub predicate: String,
    pub object: Term,
}

/// The mathematical value of a `Node`.
pub enum NodeView {
    Iri(Seq<char>),
    Blank(nat),
}

/// The mathematical value of a `Term`.
pub enum TermView {
    Node(NodeView),
    Literal(Seq<char>, XsdType),
}

/// The mathematical value of a `Triple`.
pub struct TripleView {
    pub subject: NodeView,
    pub predicate: Seq<char>,
    pub object: TermView,
}

impl View for Node {
    type V = NodeView;

    open spec fn view(&self) -> NodeView {
        match self {
            Node::Iri(iri) => NodeView::Iri(iri@),
            Node::Blank(n) => NodeView::Blank(*n as nat),
        }
    }
}

impl View for Term {
    type V = TermView;

    open spec fn view(&self) -> TermView {
        match self {
            Term::Node(node) => TermView::Node(node@),
            Term::Literal(value, datatype) => TermView::Literal(value@, *datatype),
        }
    }
}

impl View for Triple {
    type V = TripleView;

    open spec fn view(&self) -> TripleView {
        TripleView { subject: self.subject@, predicate: self.predicate@, object: self.object@ }
    }
}

impl DeepView for Triple {
    type V = TripleView;

    open spec fn deep_view(&self) -> TripleView {
        self@
    }
}

impl Node {
    /// A copy of this node.
    pub fn duplicate(&self) -> (r: Node)
        ensures
            r@ == self@,
    {
        match self {
            Node::Iri(iri) => Node::Iri(iri.clone()),
            Node::Blank(n) => Node::Blank(*n),
        }
    }
}

/// The IRI of the XML Schema datatype `t`.
pub open spec fn xsd_iri(t: XsdType) -> Seq<char> {
    match t {
        XsdType::Boolean => "http://www.w3.org/2001/XMLSchema#boolean"@,
        XsdType::Int => "http://www.w3.org/2001/XMLSchema#int"@,
        XsdType::Float => "http://www.w3.org/2001/XMLSchema#float"@,
        XsdType::String => "http://www.w3.org/2001/XMLSchema#string"@,
    }
}

/// Reads `oxrdf::vocab::xsd::BOOLEAN`, the IRI of `xsd:boolean`.
#[verifier::external_body]
fn xsd_boolean_iri() -> (r: &'static str)
    ensures
        r@ == xsd_iri(XsdType::Boolean),
{
    oxrdf::vocab::xsd::BOOLEAN.as_str()
}

/// Reads `oxrdf::vocab::xsd::INT`, the IRI of `xsd:int`.
#[verifier::external_body]
fn xsd_int_iri() -> (r: &'static str)
    ensures
        r@ == xsd_iri(XsdType::Int),
{
    oxrdf::vocab::xsd::INT.as_str()
}

/// Reads `oxrdf::vocab::xsd::FLOAT`, the IRI of `xsd:float`.
#[verifier::external_body]
fn xsd_float_iri() -> (r: &'static str)
    ensures
        r@ == xsd_iri(XsdType::Float),
{
    oxrdf::vocab::xsd::FLOAT.as_str()
}

/// Reads `oxrdf::vocab::xsd::STRING`, the IRI of `xsd:string`.
#[verifier::external_body]
fn xsd_string_iri() -> (r: &'static str)
    ensures
        r@ == xsd_iri(XsdType::String),
{
    oxrdf::vocab::xsd::STRING.as_str()
}

/// The IRI of the datatype `t`, as `oxrdf::vocab::xsd` gives it.
pub fn datatype_iri(t: XsdType) -> (r: &'static str)
    ensures
        r@ == xsd_iri(t),
{
    match t {
        XsdType::Boolean => xsd_boolean_iri(),
        XsdType::Int => xsd_int_iri(),
        XsdType::Float => xsd_float_iri(),
        XsdType::String => xsd_string_iri(),
    }
}

/// Four upper-case hexadecimal digits of `n < 65536`.
pub open spec fn four_upper_hex(n: nat) -> Seq<char> {
    seq![
        upper_hex_digit((n / 4096 % 16) as u8),
        upper_hex_digit((n / 256 % 16) as u8),
        upper_hex_digit((n / 16 % 16) as u8),
        upper_hex_digit((n % 16) as u8),
    ]
}

/// How N-Triples writes the character `c` inside a quoted literal.
pub open spec fn escaped_char(c: char) -> Seq<char> {
    if c == '\u{8}' {
        seq!['\\', 'b']
    } else if c == '\t' {
        seq!['\\', 't']
    } else if c == '\n' {
        seq!['\\', 'n']
    } else if c == '\u{C}' {
        seq!['\\', 'f']
    } else if c == '\r' {
        seq!['\\', 'r']
    } else if c == '"' {
        seq!['\\', '"']
    } else if c == '\\' {
        seq!['\\', '\\']
    } else if (c as u32) <= 0x1F || c == '\u{7F}' || c == '\u{FFFE}' || c == '\u{FFFF}' {
        seq!['\\', 'u'] + four_upper_hex(c as u32 as nat)
    } else {
        seq![c]
    }
}

/// The characters of `s`, each escaped for a quoted literal.
pub open spec fn escaped(s: Seq<char>) -> Seq<char>
    decreases s.len(),
{
    if s.len() == 0 {
        Seq::empty()
    } else {
        escaped_char(s[0]) + escaped(s.drop_first())
    }
}

/// A literal with lexical value `value` and datatype IRI `datatype` in N-Triples:
/// the quoted value, followed by `^^<datatype>` unless the datatype is `xsd:string`.
pub open spec fn literal_text(value: Seq<char>, datatype: Seq<char>) -> Seq<char> {
    let quoted = seq!['"'] + escaped(value) + seq!['"'];
    if datatype == xsd_iri(XsdType::String) {
        quoted
    } else {
        quoted + seq!['^', '^', '<'] + datatype + seq!['>']
    }
}

/// An IRI in N-Triples: between angle brackets.
pub open spec fn iri_text(iri: Seq<char>) -> Seq<char> {
    seq!['<'] + iri + seq!['>']
}

/// The label of the blank node numbered `n`.
pub open spec fn blank_label(n: nat) -> Seq<char> {
    seq!['b'] + decimal(n)
}

/// A node in N-Triples.
pub open spec fn node_text(n: NodeView) -> Seq<char> {
    match n {
        NodeView::Iri(iri) => iri_text(iri),
        NodeView::Blank(b) => seq!['_', ':'] + blank_label(b),
    }
}

/// An object term in N-Triples.
pub open spec fn term_text(t: TermView) -> Seq<char> {
    match t {
        TermView::Node(n) => node_text(n),
        TermView::Literal(value, datatype) => literal_text(value, xsd_iri(datatype)),
    }
}

/// A triple in N-Triples, without the final ` .`: subject, predicate and object
/// separated by single spaces.
pub open spec fn triple_text(t: TripleView) -> Seq<char> {
    node_text(t.subject) + seq![' '] + iri_text(t.predicate) + seq![' '] + term_text(t.object)
}

/// Blank nodes with different numbers are written with different labels, `_:b` and the
/// full decimal numeral, so they stay apart when the text is read back.
pub proof fn lemma_blank_node_text_injective(a: nat, b: nat)
    requires
        a != b,
    ensures
        node_text(NodeView::Blank(a)) != node_text(NodeView::Blank(b)),
{
    lemma_decimal_injective(a, b);
    if node_text(NodeView::Blank(a)) == node_text(NodeView::Blank(b)) {
        assert(node_text(NodeView::Blank(a)).skip(3) =~= decimal(a));
        assert(node_text(NodeView::Blank(b)).skip(3) =~= decimal(b));
    }
}

/// Calls `NamedNodeRef::new_unchecked(iri).to_string()`, which writes the IRI between angle brackets.
#[verifier::external_body]
fn named_node_text(iri: &str) -> (r: String)
    ensures
        r@ == iri_text(iri@),
{
    oxrdf::NamedNodeRef::new_unchecked(iri).to_string()
}

/// Calls `BlankNodeRef::new_unchecked(id).to_string()`, which writes `_:` and the identifier.
#[verifier::external_body]
fn blank_node_text(id: &str) -> (r: String)
    ensures
        r@ == seq!['_', ':'] + id@,
{
    oxrdf::BlankNodeRef::new_unchecked(id).to_string()
}

/// Calls `LiteralRef::new_typed_literal(value, NamedNodeRef::new_unchecked(datatype)).to_string()`,
/// which quotes and escapes the value and adds `^^<datatype>` unless the datatype is `xsd:string`.
#[verifier::external_body]
fn typed_literal_text(value: &str, datatype: &str) -> (r: String)
    ensures
        r@ == literal_text(value@, datatype@),
{
    oxrdf::LiteralRef::new_typed_literal(value, oxrdf::NamedNodeRef::new_unchecked(datatype)).to_string()
}

/// Whether `s` is a valid IRI, as `oxiri`'s `Iri::parse` decides (the check `NamedNode::new`
/// makes).
pub uninterp spec fn parses_as_iri(s: Seq<char>) -> bool;

/// Calls `NamedNodeRef::new`, which parses `iri` with `Iri::parse` and fails exactly when
/// it is not a valid IRI; the result depends on the text alone.
#[verifier::external_body]
fn iri_parses(iri: &str) -> (r: bool)
    ensures
        r == parses_as_iri(iri@),
{
    oxrdf::NamedNodeRef::new(iri).is_ok()
}

/// Whether the IRIs of `t` are valid: its subject when that is a named node, and its
/// predicate. (Blank node labels `b<n>` and the datatypes are always valid.)
pub open spec fn triple_iris_parse(t: TripleView) -> bool {
    &&& (t.subject matches NodeView::Iri(iri) ==> parses_as_iri(iri))
    &&& parses_as_iri(t.predicate)
}

impl Triple {
    /// Whether the IRIs of this triple are valid, which an RDF graph or writer needs.
    pub fn iris_parse(&self) -> (r: bool)
        ensures
            r == triple_iris_parse(self@),
    {
        let subject_ok = match &self.subject {
            Node::Iri(iri) => iri_parses(iri.as_str()),
            Node::Blank(_) => true,
        };
        subject_ok && iri_parses(self.predicate.as_str())
    }
}

impl Node {
    /// This node in N-Triples.
    pub fn to_ntriples(&self) -> (r: String)
        ensures
            r@ == node_text(self@),
    {
        match self {
            Node::Iri(iri) => named_node_text(iri.as_str()),
            Node::Blank(n) => {
                let mut label = String::new();
                push_char(&mut label, 'b');
                push_decimal(&mut label, *n);
                blank_node_text(label.as_str())
            },
        }
    }
}

impl Term {
    /// This term in N-Triples.
    pub fn to_ntriples(&self) -> (r: String)
        ensures
            r@ == term_text(self@),
    {
        match self {
            Term::Node(node) => node.to_ntriples(),
            Term::Literal(value, datatype) => typed_literal_text(
                value.as_str(),
                datatype_iri(*datatype),
            ),
        }
    }
}

impl Triple {
    /// This triple in N-Triples, as `TripleRef`'s `Display` writes it (without the final ` .`).
    pub fn to_ntriples(&self) -> (r: String)
        ensures
            r@ == triple_text(self@),
    {
        let mut r = self.subject.to_ntriples();
        push_char(&mut r, ' ');
        let predicate = named_node_text(self.predicate.as_str());
        r.append(predicate.as_str());
        push_char(&mut r, ' ');
        let object = self.object.to_ntriples();
        r.append(object.as_str());
        proof {
            assert(r@ =~= triple_text(self@));
        }
        r
    }
}

} // verus!
