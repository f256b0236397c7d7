use bech32::ToBase32;
use age::secrecy::ExposeSecret;
use yage::codec::YageEncodedValue;
use yage::document::{copy_doc, Document};
use yage::engine::{decrypt_value, decrypt_yaml, encrypt_value, encrypt_yaml};
use yage::error::YageError;

fn s(x: &str) -> Document {
    Document::String(x.to_string())
}

fn num(x: &str) -> Document {
    Document::Number(x.to_string())
}

fn map(pairs: Vec<(&str, Document)>) -> Document {
    let mut keys = Vec::new();
    let mut values = Vec::new();
    for (k, v) in pairs {
        keys.push(s(k));
        values.push(v);
    }
    Document::Mapping(keys, values)
}

fn sample() -> Document {
    map(vec![
        ("name", s("secret value")),
        ("port", num("5432")),
        ("ratio", num("1.5")),
        ("quoted", s("123")),
        ("nothing", Document::Null),
        ("flag", Document::Bool(true)),
        ("list", Document::Sequence(vec![s("one"), num("-2"), Document::Null])),
        ("nested", map(vec![("inner", s("deep"))])),
    ])
}

fn key_pair() -> (String, String) {
    let id = age::x25519::Identity::generate();
    (id.to_string().expose_secret().to_string(), id.to_public().to_string())
}

fn values(d: &Document) -> &Vec<Document> {
    match d {
        Document::Mapping(_, values) => values,
        _ => panic!("not a mapping"),
    }
}

#[test]
fn round_trip_restores_document() {
    let (id, public) = key_pair();
    let d = sample();
    let e = encrypt_yaml(&d, &vec![public]).unwrap();
    assert_ne!(e, d);
    let r = decrypt_yaml(&e, &vec![id]).unwrap();
    assert_eq!(r, d);
}

#[test]
fn encryption_replaces_strings_and_numbers() {
    let (_, public) = key_pair();
    let d = sample();
    let e = encrypt_yaml(&d, &vec![public.clone()]).unwrap();
    let vs = values(&e);
    for i in [0usize, 1, 2, 3] {
        match &vs[i] {
            Document::String(t) => {
                let token = YageEncodedValue::from_str(t).unwrap();
                assert_eq!(token.recipients, vec![public.clone()]);
            },
            other => panic!("not a token: {:?}", other),
        }
    }
    assert_eq!(vs[4], Document::Null);
    assert_eq!(vs[5], Document::Bool(true));
}

#[test]
fn encryption_is_idempotent() {
    let (_, public) = key_pair();
    let e = encrypt_yaml(&sample(), &vec![public.clone()]).unwrap();
    let e2 = encrypt_yaml(&e, &vec![public]).unwrap();
    assert_eq!(e2, e);
}

#[test]
fn encryption_keeps_existing_tokens() {
    let (_, public) = key_pair();
    let d = map(vec![("a", s("yage[abc|r:someone]")), ("b", s("plain"))]);
    let e = encrypt_yaml(&d, &vec![public]).unwrap();
    assert_eq!(values(&e)[0], s("yage[abc|r:someone]"));
}

#[test]
fn recipients_sorted_and_deduplicated_in_token() {
    let (_, a) = key_pair();
    let (_, b) = key_pair();
    let given = vec![b.clone(), a.clone(), b.clone()];
    let t = encrypt_value(&s("x"), &given).unwrap();
    let token = YageEncodedValue::from_str(&t).unwrap();
    let mut expected = vec![a, b];
    expected.sort();
    assert_eq!(token.recipients, expected);
}

#[test]
fn any_recipient_can_decrypt() {
    let (id1, p1) = key_pair();
    let (id2, p2) = key_pair();
    let e = encrypt_yaml(&sample(), &vec![p1, p2]).unwrap();
    assert_eq!(decrypt_yaml(&e, &vec![id1]).unwrap(), sample());
    assert_eq!(decrypt_yaml(&e, &vec![id2]).unwrap(), sample());
}

#[test]
fn no_recipients_is_an_error() {
    assert!(matches!(encrypt_yaml(&sample(), &vec![]), Err(YageError::NoRecipients)));
    assert!(matches!(encrypt_value(&s("x"), &vec![]), Err(YageError::NoRecipients)));
}

#[test]
fn invalid_recipient_is_an_error() {
    let r = encrypt_yaml(&sample(), &vec!["not-a-key".to_string()]);
    match r {
        Err(YageError::RecipientParse { recipient, .. }) => assert_eq!(recipient, "not-a-key"),
        other => panic!("unexpected: {:?}", other),
    }
}

#[test]
fn decrypt_without_matching_key_fails() {
    let (_, public) = key_pair();
    let (other, _) = key_pair();
    let e = encrypt_yaml(&sample(), &vec![public]).unwrap();
    assert!(matches!(decrypt_yaml(&e, &vec![other]), Err(YageError::Decrypt(_))));
}

#[test]
fn decrypt_plain_document_is_unchanged() {
    let (other, _) = key_pair();
    let d = sample();
    assert_eq!(decrypt_yaml(&d, &vec![other]).unwrap(), d);
    assert_eq!(decrypt_yaml(&sample(), &vec![]).unwrap(), sample());
}

#[test]
fn decrypt_value_passes_plain_strings() {
    assert_eq!(decrypt_value("hello", &vec![]).unwrap(), s("hello"));
}

#[test]
fn decrypt_bad_base64_fails() {
    let (id, _) = key_pair();
    assert!(matches!(decrypt_value("yage[!!!|r:x]", &vec![id]), Err(YageError::Base64Decode(_))));
}

#[test]
fn number_stays_number_and_string_stays_string() {
    let (id, public) = key_pair();
    let t = encrypt_value(&num("42"), &vec![public.clone()]).unwrap();
    assert_eq!(decrypt_value(&t, &vec![id.clone()]).unwrap(), num("42"));
    let t2 = encrypt_value(&s("42"), &vec![public]).unwrap();
    assert_eq!(decrypt_value(&t2, &vec![id]).unwrap(), s("42"));
}

#[test]
fn copy_is_equal() {
    assert_eq!(copy_doc(&sample()), sample());
}

fn low_order_recipient() -> String {
    bech32::encode("age", vec![0u8; 32].to_base32(), bech32::Variant::Bech32).unwrap()
}

#[test]
fn low_order_recipient_refused() {
    let weak = low_order_recipient();
    match encrypt_yaml(&sample(), &vec![weak.clone()]) {
        Err(YageError::RecipientParse { recipient, .. }) => assert_eq!(recipient, weak),
        other => panic!("unexpected: {:?}", other),
    }
    assert!(matches!(encrypt_value(&s("x"), &vec![weak]), Err(YageError::RecipientParse { .. })));
}

#[test]
fn uppercase_recipient_recorded_as_age_writes_it() {
    let (id, public) = key_pair();
    let t = encrypt_value(&s("x"), &vec![public.to_uppercase()]).unwrap();
    assert_eq!(YageEncodedValue::from_str(&t).unwrap().recipients, vec![public]);
    assert_eq!(decrypt_value(&t, &vec![id]).unwrap(), s("x"));
}

#[test]
fn bad_key_text_is_refused() {
    assert!(matches!(decrypt_yaml(&sample(), &vec!["nope".to_string()]), Err(YageError::KeyParse { .. })));
}

#[test]
fn one_matching_key_among_others_suffices() {
    let (id, public) = key_pair();
    let (other, _) = key_pair();
    let e = encrypt_yaml(&sample(), &vec![public]).unwrap();
    assert_eq!(decrypt_yaml(&e, &vec![other.clone(), id, other]).unwrap(), sample());
}
