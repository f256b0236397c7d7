use yage::document::Document;
use yage::error::YageError;
use yage::recipients::{check_recipients, flatten_yage_encrypted_values, get_yaml_recipients};

fn s(x: &str) -> Document {
    Document::String(x.to_string())
}

fn map(pairs: Vec<(&str, Document)>) -> Document {
    let mut keys = Vec::new();
    let mut values = Vec::new();
    for (k, v) in pairs {
        keys.push(s(k));
        values.push(v);
    }
    Document::Mapping(keys, values)
}

fn public() -> String {
    age::x25519::Identity::generate().to_public().to_string()
}

#[test]
fn differing_recipients_are_inconsistent() {
    let d = map(vec![("a", s("yage[abc|r:x,y]")), ("b", s("yage[def|r:x,z]"))]);
    assert!(!check_recipients(&d));
}

#[test]
fn same_recipients_in_any_order_are_consistent() {
    let d = map(vec![("a", s("yage[abc|r:x,y]")), ("b", s("yage[def|r:y,x,y]"))]);
    assert!(check_recipients(&d));
}

#[test]
fn legacy_tokens_do_not_count() {
    let d = map(vec![("a", s("yage[abc|r:x]")), ("b", s("yage[def]")), ("c", s("plain"))]);
    assert!(check_recipients(&d));
}

#[test]
fn flatten_in_document_order() {
    let d = Document::Sequence(vec![
        s("yage[one|r:x]"),
        map(vec![("k", s("yage[two]")), ("j", s("plain"))]),
        Document::Number("3".to_string()),
    ]);
    let flat = flatten_yage_encrypted_values(&d);
    assert_eq!(flat.len(), 2);
    assert_eq!(flat[0].data, "one");
    assert_eq!(flat[1].data, "two");
}

#[test]
fn keys_are_not_searched() {
    let d = Document::Mapping(vec![s("yage[key|r:x]")], vec![s("plain")]);
    assert!(flatten_yage_encrypted_values(&d).is_empty());
}

#[test]
fn yaml_recipients_sorted_unique() {
    let a = public();
    let b = public();
    let d = map(vec![
        ("a", s(&format!("yage[abc|r:{},{}]", b, a))),
        ("b", s(&format!("yage[def|r:{}]", b))),
    ]);
    let mut expected = vec![a, b];
    expected.sort();
    assert_eq!(get_yaml_recipients(&d).unwrap(), expected);
}

#[test]
fn yaml_recipients_invalid_fingerprint() {
    let d = map(vec![("a", s("yage[abc|r:bogus]"))]);
    match get_yaml_recipients(&d) {
        Err(YageError::RecipientParse { recipient, .. }) => assert_eq!(recipient, "bogus"),
        other => panic!("unexpected: {:?}", other),
    }
}

#[test]
fn yaml_recipients_of_plain_document() {
    assert!(get_yaml_recipients(&map(vec![("a", s("plain"))])).unwrap().is_empty());
}
