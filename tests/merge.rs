use age::secrecy::ExposeSecret;
use yage::document::{copy_doc, Document};
use yage::engine::{decrypt_yaml, encrypt_yaml};
use yage::error::YageError;
use yage::merge::merge_for_edit;

fn s(x: &str) -> Document {
    Document::String(x.to_string())
}

fn map(pairs: Vec<(&str, Document)>) -> Document {
    let mut keys = Vec::new();
    let mut values = Vec::new();
    for (k, v) in pairs {
        keys.push(s(k));
        values.push(v);
    }
    Document::Mapping(keys, values)
}

fn values(d: &Document) -> &Vec<Document> {
    match d {
        Document::Mapping(_, values) => values,
        _ => panic!("not a mapping"),
    }
}

fn set_value(d: &mut Document, i: usize, v: Document) {
    match d {
        Document::Mapping(_, values) => values[i] = v,
        _ => panic!("not a mapping"),
    }
}

#[test]
fn merge_keeps_unchanged_ciphertext() {
    let key = age::x25519::Identity::generate();
    let public = key.to_public().to_string();
    let id = key.to_string().expose_secret().to_string();
    let d = map(vec![("a", s("alpha")), ("b", s("beta")), ("c", Document::Number("7".to_string()))]);
    let original = encrypt_yaml(&d, &vec![public.clone()]).unwrap();
    let before = decrypt_yaml(&original, &vec![id.clone()]).unwrap();
    let mut after = copy_doc(&before);
    set_value(&mut after, 1, s("changed"));
    let merged = merge_for_edit(&original, &before, &after).unwrap();
    let again = encrypt_yaml(&merged, &vec![public]).unwrap();
    assert_eq!(values(&again)[0], values(&original)[0]);
    assert_eq!(values(&again)[2], values(&original)[2]);
    assert_ne!(values(&again)[1], values(&original)[1]);
    let reopened = decrypt_yaml(&again, &vec![id]).unwrap();
    assert_eq!(reopened, after);
}

#[test]
fn merge_unchanged_document_is_original() {
    let original = map(vec![("a", s("yage[xyz|r:k]"))]);
    let before = map(vec![("a", s("plain"))]);
    let merged = merge_for_edit(&original, &before, &copy_doc(&before)).unwrap();
    assert_eq!(merged, original);
}

#[test]
fn merge_added_and_removed_keys() {
    let original = map(vec![("a", s("yage[xyz|r:k]")), ("b", s("yage[uvw|r:k]"))]);
    let before = map(vec![("a", s("one")), ("b", s("two"))]);
    let after = map(vec![("a", s("one")), ("c", s("three"))]);
    let merged = merge_for_edit(&original, &before, &after).unwrap();
    assert_eq!(merged, map(vec![("a", s("yage[xyz|r:k]")), ("c", s("three"))]));
}

#[test]
fn merge_sequence_by_index() {
    let original = Document::Sequence(vec![s("yage[1]"), s("yage[2]")]);
    let before = Document::Sequence(vec![s("x"), s("y")]);
    let after = Document::Sequence(vec![s("x"), s("z"), s("w")]);
    let merged = merge_for_edit(&original, &before, &after).unwrap();
    assert_eq!(merged, Document::Sequence(vec![s("yage[1]"), s("z"), s("w")]));
}

#[test]
fn merge_kind_change_takes_edit() {
    let original = map(vec![("a", s("yage[1]"))]);
    let before = map(vec![("a", s("x"))]);
    let after = Document::Sequence(vec![s("x")]);
    let merged = merge_for_edit(&original, &before, &after).unwrap();
    assert_eq!(merged, Document::Sequence(vec![s("x")]));
}

#[test]
fn merge_missing_original_path() {
    let original = map(vec![("a", s("yage[whole]"))]);
    let before = map(vec![("a", map(vec![("x", s("1")), ("y", s("2"))]))]);
    let after = map(vec![("a", map(vec![("x", s("1")), ("y", s("3"))]))]);
    assert!(matches!(merge_for_edit(&original, &before, &after), Err(YageError::KeyNotFound)));
}
