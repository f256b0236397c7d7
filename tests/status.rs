use yage::document::Document;
use yage::status::{check_encrypted, EncryptionStatus};

fn s(x: &str) -> Document {
    Document::String(x.to_string())
}

fn map(pairs: Vec<(&str, Document)>) -> Document {
    let mut keys = Vec::new();
    let mut values = Vec::new();
    for (k, v) in pairs {
        keys.push(s(k));
        values.push(v);
    }
    Document::Mapping(keys, values)
}

#[test]
fn status_mixed_mapping() {
    let d = map(vec![("a", s("yage[abc|r:x]")), ("b", s("plain"))]);
    assert_eq!(check_encrypted(&d), EncryptionStatus::Mixed);
}

#[test]
fn status_empty_mapping() {
    assert_eq!(check_encrypted(&map(vec![])), EncryptionStatus::NoValue);
}

#[test]
fn status_all_encrypted() {
    let d = map(vec![("a", s("yage[abc|r:x]")), ("b", s("yage[def]"))]);
    assert_eq!(check_encrypted(&d), EncryptionStatus::Encrypted);
}

#[test]
fn status_leaves() {
    assert_eq!(check_encrypted(&Document::Null), EncryptionStatus::NoValue);
    assert_eq!(check_encrypted(&Document::Number("3".to_string())), EncryptionStatus::NotEncrypted);
    assert_eq!(check_encrypted(&Document::Bool(true)), EncryptionStatus::NotEncrypted);
    assert_eq!(check_encrypted(&s("yage[abc|z:x]")), EncryptionStatus::NotEncrypted);
}

#[test]
fn status_nulls_are_neutral() {
    let d = Document::Sequence(vec![Document::Null, s("yage[a]"), Document::Null]);
    assert_eq!(check_encrypted(&d), EncryptionStatus::Encrypted);
    let e = Document::Sequence(vec![Document::Null, Document::Null]);
    assert_eq!(check_encrypted(&e), EncryptionStatus::NoValue);
}

#[test]
fn status_mixed_absorbs() {
    let inner = Document::Sequence(vec![s("yage[a]"), s("b")]);
    let d = Document::Sequence(vec![inner, s("yage[c]")]);
    assert_eq!(check_encrypted(&d), EncryptionStatus::Mixed);
}
