use age::secrecy::ExposeSecret;
use yage::cli::{DecryptArgs, EncryptArgs, ReEncryptArgs};
use yage::cmd::{
    check, check_document, check_file_args, choose_recipients, decrypt, encrypt, load_identities,
    load_recipients, pubkey, re_encrypt, re_encryption_recipients,
};
use yage::codec::YageEncodedValue;
use yage::document::Document;
use yage::engine::{decrypt_yaml, encrypt_yaml};
use yage::error::YageError;
use yage::status::EncryptionStatus;

fn s(x: &str) -> Document {
    Document::String(x.to_string())
}

fn key() -> (String, String) {
    let id = age::x25519::Identity::generate();
    (id.to_string().expose_secret().to_string(), id.to_public().to_string())
}

fn strings(v: &[&str]) -> Vec<String> {
    v.iter().map(|x| x.to_string()).collect()
}

fn decrypt_args(in_place: bool, files: &[&str]) -> DecryptArgs {
    DecryptArgs { in_place, keys: vec![], key_files: vec![], output: "-".to_string(), files: strings(files) }
}

fn re_encrypt_args(keep: bool) -> ReEncryptArgs {
    ReEncryptArgs {
        in_place: false,
        keep_recipients: keep,
        keys: vec![],
        key_files: vec![],
        recipients: vec![],
        recipient_files: vec![],
        remove_recipients: vec![],
        remove_recipient_files: vec![],
        output: "-".to_string(),
        files: strings(&["file.yaml"]),
    }
}

#[test]
fn stdin_in_place_refused() {
    assert!(matches!(check_file_args(true, &strings(&["a.yaml", "-"]), true), Err(YageError::InPlaceStdin)));
    assert!(matches!(decrypt(&decrypt_args(true, &["-"]), &vec![], &vec![]), Err(YageError::InPlaceStdin)));
}

#[test]
fn several_files_need_in_place() {
    assert!(matches!(
        check_file_args(false, &strings(&["foo.yaml", "bar.yaml"]), true),
        Err(YageError::InvalidNumberOfInputFiles)
    ));
    assert!(check_file_args(true, &strings(&["foo.yaml", "bar.yaml"]), true).is_ok());
    assert!(check_file_args(false, &strings(&["foo.yaml", "bar.yaml"]), false).is_ok());
}

#[test]
fn check_exit_codes() {
    let encrypted = Document::Mapping(vec![s("a")], vec![s("yage[abc|r:x]")]);
    let plain = Document::Mapping(vec![s("a")], vec![s("abc")]);
    let empty = Document::Mapping(vec![], vec![]);
    assert_eq!(check(&vec![]), 0);
    let docs = vec![Document::Mapping(vec![s("a")], vec![s("yage[abc|r:x]")]), empty];
    assert_eq!(check(&docs), 0);
    assert_eq!(check(&vec![encrypted, plain]), 1);
}

#[test]
fn check_reports_inconsistent_recipients() {
    let d = Document::Mapping(vec![s("a"), s("b")], vec![s("yage[abc|r:x]"), s("yage[def|r:y]")]);
    let outcome = check_document(&d);
    assert!(!outcome.consistent);
    assert_eq!(outcome.status, EncryptionStatus::Encrypted);
    assert_eq!(check(&vec![d]), 1);
}

#[test]
fn identities_from_text() {
    let id = age::x25519::Identity::generate();
    let text = id.to_string().expose_secret().to_string();
    let loaded = load_identities(&vec![text.clone()]).unwrap();
    assert_eq!(loaded, vec![text]);
    assert!(matches!(load_identities(&strings(&["nope"])), Err(YageError::KeyParse { .. })));
}

#[test]
fn recipients_from_text() {
    let a = age::x25519::Identity::generate().to_public().to_string();
    let b = age::x25519::Identity::generate().to_public().to_string();
    let loaded = load_recipients(&vec![b.clone(), a.clone(), b.clone()]).unwrap();
    let mut expected = vec![a, b];
    expected.sort();
    assert_eq!(loaded, expected);
    assert!(matches!(load_recipients(&strings(&["bad"])), Err(YageError::RecipientParse { .. })));
}

#[test]
fn pubkey_matches_age() {
    let ids = vec![age::x25519::Identity::generate(), age::x25519::Identity::generate()];
    let expected: Vec<String> = ids.iter().map(|i| i.to_public().to_string()).collect();
    let texts: Vec<String> = ids.iter().map(|i| i.to_string().expose_secret().to_string()).collect();
    assert_eq!(pubkey(&texts).unwrap(), expected);
    assert!(matches!(pubkey(&strings(&["nope"])), Err(YageError::KeyParse { .. })));
}

#[test]
fn choose_between_given_and_recorded() {
    let given = strings(&["a", "b"]);
    let recorded = strings(&["b", "a"]);
    assert_eq!(choose_recipients(&given, &recorded).unwrap(), given);
    assert_eq!(choose_recipients(&vec![], &recorded).unwrap(), recorded);
    assert_eq!(choose_recipients(&given, &vec![]).unwrap(), given);
    assert!(matches!(choose_recipients(&given, &strings(&["c"])), Err(YageError::InvalidRecipients)));
}

#[test]
fn re_encryption_recipient_set() {
    let r = re_encryption_recipients(&strings(&["c", "a"]), &strings(&["b", "a"]), &strings(&["c"]));
    assert_eq!(r, strings(&["a", "b"]));
}

#[test]
fn decrypt_command_decrypts_each_input() {
    let (id, public) = key();
    let d = Document::Mapping(vec![s("k")], vec![s("v")]);
    let e = encrypt_yaml(&d, &vec![public]).unwrap();
    let out = decrypt(&decrypt_args(false, &["file.yaml"]), &vec![e], &vec![id]).unwrap();
    assert_eq!(out, vec![d]);
}

#[test]
fn encrypt_command_uses_recorded_recipients() {
    let (_, public) = key();
    let partial = Document::Mapping(
        vec![s("a"), s("b")],
        vec![encrypt_yaml(&s("x"), &vec![public.clone()]).unwrap(), s("y")],
    );
    let args = EncryptArgs { in_place: false, recipients: vec![], recipient_files: vec![], output: "-".to_string(), files: strings(&["f.yaml"]) };
    let out = encrypt(&args, &vec![partial], &vec![]).unwrap();
    match &out[0] {
        Document::Mapping(_, values) => match &values[1] {
            Document::String(t) => assert_eq!(YageEncodedValue::from_str(t).unwrap().recipients, vec![public]),
            other => panic!("unexpected: {:?}", other),
        },
        other => panic!("unexpected: {:?}", other),
    }
}

#[test]
fn encrypt_command_refuses_other_recipients() {
    let a = age::x25519::Identity::generate().to_public().to_string();
    let b = age::x25519::Identity::generate().to_public().to_string();
    let doc = Document::Mapping(vec![s("a")], vec![encrypt_yaml(&s("x"), &vec![a]).unwrap()]);
    let args = EncryptArgs { in_place: false, recipients: vec![], recipient_files: vec![], output: "-".to_string(), files: strings(&["f.yaml"]) };
    assert!(matches!(encrypt(&args, &vec![doc], &vec![b]), Err(YageError::InvalidRecipients)));
}

#[test]
fn re_encrypt_changes_recipients() {
    let (old, old_public) = key();
    let (new, new_public) = key();
    let d = Document::Mapping(vec![s("k")], vec![s("v")]);
    let e = encrypt_yaml(&d, &vec![old_public]).unwrap();
    let out = re_encrypt(&re_encrypt_args(false), &vec![e], &vec![old.clone()], &vec![new_public], &vec![]).unwrap();
    assert_eq!(decrypt_yaml(&out[0], &vec![new]).unwrap(), d);
    assert!(matches!(decrypt_yaml(&out[0], &vec![old]), Err(YageError::Decrypt(_))));
}

#[test]
fn re_encrypt_keeps_recipients() {
    let (old, old_public) = key();
    let (new, new_public) = key();
    let d = Document::Mapping(vec![s("k")], vec![s("v")]);
    let e = encrypt_yaml(&d, &vec![old_public]).unwrap();
    let out = re_encrypt(&re_encrypt_args(true), &vec![e], &vec![old.clone()], &vec![new_public], &vec![]).unwrap();
    assert_eq!(decrypt_yaml(&out[0], &vec![new]).unwrap(), d);
    assert_eq!(decrypt_yaml(&out[0], &vec![old]).unwrap(), d);
}

#[test]
fn env_from_mapping() {
    let d = Document::Mapping(vec![s("foo"), s("PORT")], vec![s("bar"), Document::Number("8080".to_string())]);
    let env = yage::env::build_env(&d).unwrap();
    assert_eq!(env, vec![("foo".to_string(), "bar".to_string()), ("PORT".to_string(), "8080".to_string())]);
}

#[test]
fn env_requires_mapping() {
    assert!(matches!(yage::env::build_env(&Document::Sequence(vec![])), Err(YageError::NotAMap)));
    let d = Document::Mapping(vec![s("k")], vec![Document::Null]);
    assert!(matches!(yage::env::build_env(&d), Err(YageError::NotAStringOrNumber)));
}

#[test]
fn re_encrypt_needs_keys() {
    assert!(matches!(re_encrypt(&re_encrypt_args(false), &vec![], &vec![], &vec![], &vec![]), Err(YageError::NoKeys)));
}

#[test]
fn yaml_text_round_trip() {
    let text = b"a: 1\nb: text\nc:\n- x\n- null\n".to_vec();
    let d = yage::yaml::read_document(&text).unwrap();
    let expected = Document::Mapping(
        vec![s("a"), s("b"), s("c")],
        vec![Document::Number("1".to_string()), s("text"), Document::Sequence(vec![s("x"), Document::Null])],
    );
    assert_eq!(d, expected);
    let out = yage::yaml::write_document(&d).unwrap();
    assert_eq!(yage::yaml::read_document(&out).unwrap(), expected);
}

#[test]
fn tagged_values_are_kept() {
    let (id, public) = key();
    let d = yage::yaml::read_document(&b"a: !secret hidden\nb: plain\n".to_vec()).unwrap();
    let e = encrypt_yaml(&d, &vec![public]).unwrap();
    match &e {
        Document::Mapping(_, values) => assert_eq!(values[0], Document::Tagged("!secret hidden".to_string())),
        other => panic!("unexpected: {:?}", other),
    }
    assert_eq!(yage::status::check_encrypted(&d), EncryptionStatus::NotEncrypted);
    let text = String::from_utf8(yage::yaml::write_document(&e).unwrap()).unwrap();
    assert!(text.starts_with("a: !secret hidden\n"));
    assert_eq!(decrypt_yaml(&e, &vec![id]).unwrap(), d);
}

#[test]
fn edit_keeps_unchanged_and_reencrypts_changed() {
    let (id, public) = key();
    let d = Document::Mapping(vec![s("a"), s("b")], vec![s("one"), s("two")]);
    let original = encrypt_yaml(&d, &vec![public]).unwrap();
    let before = decrypt_yaml(&original, &vec![id.clone()]).unwrap();
    let after = Document::Mapping(vec![s("a"), s("b")], vec![s("one"), s("changed")]);
    let written = yage::cmd::edit(&original, &before, &after).unwrap();
    match (&written, &original) {
        (Document::Mapping(_, w), Document::Mapping(_, o)) => {
            assert_eq!(w[0], o[0]);
            assert_ne!(w[1], o[1]);
        },
        _ => panic!("not mappings"),
    }
    assert_eq!(decrypt_yaml(&written, &vec![id]).unwrap(), after);
    let plain = Document::Mapping(vec![s("a")], vec![s("x")]);
    assert!(matches!(yage::cmd::edit(&plain, &plain, &plain), Err(YageError::NoRecipients)));
}

fn low_order_key() -> String {
    bech32::encode("age", bech32::ToBase32::to_base32(&vec![0u8; 32]), bech32::Variant::Bech32).unwrap()
}

#[test]
fn low_order_key_loads_but_is_not_encrypted_to() {
    let weak = low_order_key();
    assert_eq!(load_recipients(&vec![weak.clone()]).unwrap(), vec![weak.clone()]);
    let d = Document::Mapping(vec![s("k")], vec![s("v")]);
    assert!(matches!(encrypt_yaml(&d, &vec![weak]), Err(YageError::RecipientParse { .. })));
}

#[test]
fn re_encrypt_removes_low_order_key() {
    let (id, public) = key();
    let d = Document::Mapping(vec![s("k")], vec![s("v")]);
    let e = encrypt_yaml(&d, &vec![public.clone()]).unwrap();
    let out = re_encrypt(&re_encrypt_args(true), &vec![e], &vec![id.clone()], &vec![], &vec![low_order_key()]).unwrap();
    assert_eq!(decrypt_yaml(&out[0], &vec![id]).unwrap(), d);
}

#[test]
fn recorded_recipients_in_age_spelling() {
    let (_, public) = key();
    let d = Document::Mapping(vec![s("a")], vec![s(&format!("yage[abc|r:{}]", public.to_uppercase()))]);
    assert_eq!(yage::recipients::get_yaml_recipients(&d).unwrap(), vec![public]);
}

#[test]
fn edit_recipients_of_plain_file() {
    let plain = Document::Mapping(vec![s("a")], vec![s("x")]);
    assert!(matches!(yage::cmd::edit_recipients(&plain), Err(YageError::NoRecipients)));
}
