use json2rdf::text::{compute_stable_hash, create_property_uri, normalize_namespace};
use std::hash::{Hash, Hasher};

#[test]
fn test_normalize_namespace_with_trailing_slash() {
    let result = normalize_namespace("https://example.com/");
    assert_eq!(result, "https://example.com#");
}

#[test]
fn test_normalize_namespace_with_trailing_hash() {
    let result = normalize_namespace("https://example.com#");
    assert_eq!(result, "https://example.com#");
}

#[test]
fn test_normalize_namespace_without_trailing() {
    let result = normalize_namespace("https://example.com");
    assert_eq!(result, "https://example.com#");
}

#[test]
fn test_normalize_namespace_empty() {
    let result = normalize_namespace("");
    assert_eq!(result, "https://purl.org/wiser/json2rdf/model#");
}

#[test]
fn test_create_property_uri_simple() {
    let result = create_property_uri("https://example.com#", "propertyName");
    assert_eq!(result, "https://example.com#propertyName");
}

#[test]
fn test_create_property_uri_with_special_chars() {
    let result = create_property_uri("https://example.com", "property Name");
    assert_eq!(result, "https://example.com#property%20Name");
}

#[test]
fn test_create_property_uri_with_trailing_slash() {
    let result = create_property_uri("https://example.com/", "propertyName");
    assert_eq!(result, "https://example.com#propertyName");
}

#[test]
fn normalize_trims_unicode_whitespace() {
    assert_eq!(normalize_namespace(" \t\u{3000}https://a.org/ns//\n\u{a0}"), "https://a.org/ns#");
    assert_eq!(normalize_namespace(" \u{2028} "), "https://purl.org/wiser/json2rdf/model#");
}

#[test]
fn normalize_strips_slashes_before_hashes() {
    assert_eq!(normalize_namespace("https://a.org/#/"), "https://a.org/#");
    assert_eq!(normalize_namespace("https://a.org###"), "https://a.org#");
    assert_eq!(normalize_namespace("##"), "#");
    assert_eq!(normalize_namespace("a b #"), "a b #");
}

#[test]
fn normalize_is_idempotent() {
    for ns in ["", "  x/", "https://a.org/#/", "##", " \u{85}a\u{85} ", "http://e.org/ns#", "a b #"] {
        let once = normalize_namespace(ns);
        assert_eq!(normalize_namespace(&once), once);
    }
}

#[test]
fn property_uri_is_namespace_then_encoded_name() {
    for (ns, name) in [("https://a.org/", "x y"), ("", "k"), ("https://a.org/#/", "é~-._")] {
        let expected = format!("{}{}", normalize_namespace(ns), urlencoding::encode(name));
        assert_eq!(create_property_uri(ns, name), expected);
    }
}

#[test]
fn property_uri_percent_encodes_utf8_bytes_in_upper_case() {
    assert_eq!(create_property_uri("http://x.org/ns", "é/?#"), "http://x.org/ns#%C3%A9%2F%3F%23");
    assert_eq!(create_property_uri("http://x.org/ns", "Az09-._~"), "http://x.org/ns#Az09-._~");
    assert_eq!(create_property_uri("http://x.org/ns", ""), "http://x.org/ns#");
}

#[test]
fn stable_hash_is_default_hasher_in_lower_hex() {
    for input in ["", "abc", "{\"key\":\"value\"}", "é"] {
        let mut hasher = std::collections::hash_map::DefaultHasher::new();
        input.hash(&mut hasher);
        assert_eq!(compute_stable_hash(input), format!("{:x}", hasher.finish()));
    }
    assert_eq!(compute_stable_hash("abc"), compute_stable_hash("abc"));
    assert_ne!(compute_stable_hash("abc"), compute_stable_hash("abd"));
}

#[test]
fn normalize_cuts_an_existing_fragment() {
    assert_eq!(normalize_namespace("http://a.org#frag"), "http://a.org#");
    assert_eq!(normalize_namespace("http://a.org/#frag/"), "http://a.org/#");
    assert_eq!(normalize_namespace("a#b#c##"), "a#");
    assert_eq!(normalize_namespace("#x"), "#");
    assert_eq!(create_property_uri("http://a.org#frag", "k"), "http://a.org#k");
}

#[test]
fn normalize_ignores_surrounding_whitespace() {
    for ns in ["http://a.org/x/", "a#b", "", "#"] {
        let padded = format!(" \t\u{2003}{}\n\u{3000}", ns);
        assert_eq!(normalize_namespace(&padded), normalize_namespace(ns));
    }
}

#[test]
fn property_uri_decodes_back_to_the_key() {
    for key in ["plain", "with space", "é/?#%", ""] {
        let ns = normalize_namespace("http://x.org/ns");
        let uri = create_property_uri("http://x.org/ns", key);
        assert!(uri.starts_with(&ns));
        let rest = &uri[ns.len()..];
        assert!(rest.chars().all(|c| c == '%' || c.is_ascii_alphanumeric() || "-._~".contains(c)));
        assert_eq!(urlencoding::decode(rest).unwrap(), key);
    }
    assert_ne!(create_property_uri("n", "a b"), create_property_uri("n", "a+b"));
}
