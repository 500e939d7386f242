# json2rdf

Converts JSON documents into RDF triples.

- `src/text.rs`: namespace normalisation, property IRIs (percent-encoded keys through
  `urlencoding`), numerals and the `DefaultHasher` digest that names a root object.
- `src/json.rs`: the parsed JSON value the conversion reads.
- `src/rdf.rs`: nodes, terms and triples, and their N-Triples text (through `oxrdf`).
- `src/convert.rs`: the conversion of a stream of JSON values (`Converter`), its
  specification (`value_triples`, `document_triples`) and its laws.
- `src/writer.rs`: `FileWriter`, which writes triples as N-Triples lines through a
  buffer, into memory or to any `std::io::Write` writer.
- `app/lib.rs`: `json_to_rdf`, which parses the input with `serde_json`, converts each
  value and hands the triples to an `RdfWriter` (`FileWriter` or `GraphWriter`).
