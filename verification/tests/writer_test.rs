use json2rdf::rdf::{Node, Term, Triple, XsdType};
use json2rdf::writer::FileWriter;
use oxrdfio::{RdfFormat, RdfParser};
use std::io::Cursor;

fn triple(subject: Node, predicate: &str, object: Term) -> Triple {
    Triple { subject, predicate: predicate.to_string(), object }
}

#[test]
fn triples_in_ntriples() {
    let t = triple(
        Node::Iri("http://e.org/s".to_string()),
        "http://e.org/p",
        Term::Literal("30".to_string(), XsdType::Int),
    );
    assert_eq!(t.to_ntriples(), "<http://e.org/s> <http://e.org/p> \"30\"^^<http://www.w3.org/2001/XMLSchema#int>");
    let t = triple(Node::Blank(10), "http://e.org/p", Term::Node(Node::Blank(7)));
    assert_eq!(t.to_ntriples(), "_:b10 <http://e.org/p> _:b7");
    let t = triple(Node::Blank(0), "http://e.org/p", Term::Literal("plain".to_string(), XsdType::String));
    assert_eq!(t.to_ntriples(), "_:b0 <http://e.org/p> \"plain\"");
    let t = triple(Node::Blank(0), "http://e.org/p", Term::Literal("true".to_string(), XsdType::Boolean));
    assert_eq!(t.to_ntriples(), "_:b0 <http://e.org/p> \"true\"^^<http://www.w3.org/2001/XMLSchema#boolean>");
    let t = triple(Node::Blank(0), "http://e.org/p", Term::Literal("1.5".to_string(), XsdType::Float));
    assert_eq!(t.to_ntriples(), "_:b0 <http://e.org/p> \"1.5\"^^<http://www.w3.org/2001/XMLSchema#float>");
}

#[test]
fn literals_are_escaped() {
    let t = triple(
        Node::Blank(1),
        "http://e.org/p",
        Term::Literal("a\"b\\c\nd\te\u{1}f\u{7f}".to_string(), XsdType::String),
    );
    assert_eq!(t.to_ntriples(), "_:b1 <http://e.org/p> \"a\\\"b\\\\c\\nd\\te\\u0001f\\u007F\"");
}

#[test]
fn file_writer_into_vec_gives_the_written_lines() {
    let mut w = FileWriter::to_vec();
    let a = triple(
        Node::Iri("http://e.org/s".to_string()),
        "http://e.org/p",
        Term::Node(Node::Blank(0)),
    );
    let b = triple(Node::Blank(0), "http://e.org/q", Term::Literal("x\ny".to_string(), XsdType::String));
    w.add_triple(&a).unwrap();
    w.add_triple(&b).unwrap();
    let bytes = w.into_vec();
    assert_eq!(
        String::from_utf8(bytes.clone()).unwrap(),
        "<http://e.org/s> <http://e.org/p> _:b0 .\n_:b0 <http://e.org/q> \"x\\ny\" .\n"
    );
    let quads = RdfParser::from_format(RdfFormat::NTriples)
        .for_reader(Cursor::new(bytes))
        .collect::<Result<Vec<_>, _>>()
        .expect("failed to parse generated output");
    assert_eq!(quads.len(), 2);
}

#[test]
fn file_writer_over_any_writer() {
    let mut w = FileWriter::new(Vec::new());
    w.add_triple(&triple(Node::Blank(3), "http://e.org/p", Term::Literal("1".to_string(), XsdType::Int)))
        .unwrap();
    assert_eq!(
        String::from_utf8(w.into_vec()).unwrap(),
        "_:b3 <http://e.org/p> \"1\"^^<http://www.w3.org/2001/XMLSchema#int> .\n"
    );
    assert!(FileWriter::to_vec().into_vec().is_empty());
    let _ = FileWriter::to_stdout();
}

/// A writer that takes nothing.
struct Broken;

impl std::io::Write for Broken {
    fn write(&mut self, _buf: &[u8]) -> std::io::Result<usize> {
        Err(std::io::Error::new(std::io::ErrorKind::Other, "broken"))
    }
    fn flush(&mut self) -> std::io::Result<()> {
        Err(std::io::Error::new(std::io::ErrorKind::Other, "broken"))
    }
}

#[test]
fn a_line_that_fits_is_buffered_when_the_writer_fails() {
    let mut w = FileWriter::new(Broken);
    let t = triple(Node::Blank(0), "http://e.org/p", Term::Literal("x".to_string(), XsdType::String));
    assert!(w.add_triple(&t).is_ok());
    assert!(w.add_triple(&t).is_ok());
}

#[test]
fn a_line_longer_than_the_buffer_fails_on_a_failing_writer() {
    let mut w = FileWriter::new(Broken);
    let long = "y".repeat(10000);
    let t = triple(Node::Blank(0), "http://e.org/p", Term::Literal(long, XsdType::String));
    assert!(w.add_triple(&t).is_err());
}

#[test]
fn one_line_per_triple_in_memory() {
    let mut w = FileWriter::to_vec();
    let t = triple(iri_node("http://e.org/s"), "http://e.org/p", Term::Node(iri_node("http://e.org/o")));
    assert!(w.add_triple(&t).is_ok());
    assert_eq!(w.into_vec(), b"<http://e.org/s> <http://e.org/p> <http://e.org/o> .\n".to_vec());
}

#[test]
fn long_lines_reach_a_vec_writer() {
    let mut w = FileWriter::new(Vec::new());
    let long = "z".repeat(9000);
    let t = triple(Node::Blank(1), "http://e.org/p", Term::Literal(long.clone(), XsdType::String));
    let short = triple(Node::Blank(2), "http://e.org/p", Term::Literal("s".to_string(), XsdType::String));
    w.add_triple(&short).unwrap();
    w.add_triple(&t).unwrap();
    let text = String::from_utf8(w.into_vec()).unwrap();
    assert_eq!(text, format!("_:b2 <http://e.org/p> \"s\" .\n_:b1 <http://e.org/p> \"{}\" .\n", long));
}

#[test]
fn iri_checks() {
    let ok = triple(iri_node("http://e.org/s"), "http://e.org/p", Term::Node(Node::Blank(0)));
    assert!(ok.iris_parse());
    let bad_subject = triple(iri_node("not an iri"), "http://e.org/p", Term::Node(Node::Blank(0)));
    assert!(!bad_subject.iris_parse());
    let bad_predicate = triple(Node::Blank(0), "http://e.org/a b", Term::Node(Node::Blank(0)));
    assert!(!bad_predicate.iris_parse());
}

fn iri_node(text: &str) -> Node {
    Node::Iri(text.to_string())
}

/// A writer that takes one byte per call into a shared vector.
struct Trickle(std::rc::Rc<std::cell::RefCell<Vec<u8>>>);

impl std::io::Write for Trickle {
    fn write(&mut self, buf: &[u8]) -> std::io::Result<usize> {
        match buf.first() {
            Some(b) => {
                self.0.borrow_mut().push(*b);
                Ok(1)
            }
            None => Ok(0),
        }
    }
    fn flush(&mut self) -> std::io::Result<()> {
        Ok(())
    }
}

#[test]
fn each_line_reaches_a_writer_that_takes_a_byte_at_a_time() {
    let shared = std::rc::Rc::new(std::cell::RefCell::new(Vec::new()));
    let mut w = FileWriter::new(Trickle(shared.clone()));
    let a = triple(Node::Blank(0), "http://e.org/p", Term::Literal("x".to_string(), XsdType::String));
    let b = triple(Node::Blank(1), "http://e.org/q", Term::Node(Node::Blank(0)));
    w.add_triple(&a).unwrap();
    assert_eq!(shared.borrow().as_slice(), b"_:b0 <http://e.org/p> \"x\" .\n");
    w.add_triple(&b).unwrap();
    assert_eq!(
        shared.borrow().as_slice(),
        b"_:b0 <http://e.org/p> \"x\" .\n_:b1 <http://e.org/q> _:b0 .\n"
    );
}

#[test]
fn three_lines_read_back_in_order() {
    let mut w = FileWriter::to_vec();
    let mut expected = String::new();
    for n in 0..3u64 {
        let t = triple(Node::Blank(n), "http://e.org/p", Term::Literal(format!("v{}", n), XsdType::Int));
        expected.push_str(&format!("{} .\n", t.to_ntriples()));
        assert!(w.add_triple(&t).is_ok());
    }
    assert_eq!(w.into_vec(), expected.into_bytes());
}
