//! Conversion of JSON documents into RDF triples.
//!
//! The library models a parsed JSON value (`json`), the RDF terms it produces
//! (`rdf`), the namespace and text rules that name them (`text`), the
//! conversion itself (`convert`) and the sinks that receive triples (`writer`).

pub mod text;
pub mod json;
pub mod rdf;
pub mod convert;
pub mod writer;
