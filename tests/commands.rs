use age::secrecy::ExposeSecret;
use yage::cli::{DecryptArgs, EncryptArgs, ReEncryptArgs};
use yage::cmd::{check, check_document, decrypt, encrypt, re_encrypt};
use yage::document::Document;
use yage::engine::decrypt_yaml;
use yage::error::YageError;
use yage::status::EncryptionStatus;
use yage::yaml::{read_document, write_document};

const YAML_CONTENT: &str = "foo: bar
titi:
  toto: 42
array:
- 1
- 2
- 3
empty_map: {}
empty_array: []
empty_string: ''
empty: null
";

fn parse(text: &str) -> Document {
    read_document(&text.as_bytes().to_vec()).unwrap()
}

fn render(d: &Document) -> String {
    String::from_utf8(write_document(d).unwrap()).unwrap()
}

fn create_key() -> (String, String) {
    let id = age::x25519::Identity::generate();
    (id.to_string().expose_secret().to_string(), id.to_public().to_string())
}

fn files(v: &[&str]) -> Vec<String> {
    v.iter().map(|x| x.to_string()).collect()
}

fn encrypt_args(in_place: bool, names: &[&str]) -> EncryptArgs {
    EncryptArgs { in_place, recipients: vec![], recipient_files: vec![], output: "-".to_string(), files: files(names) }
}

fn decrypt_args(in_place: bool, names: &[&str]) -> DecryptArgs {
    DecryptArgs { in_place, keys: vec![], key_files: vec![], output: "-".to_string(), files: files(names) }
}

fn re_encrypt_args(in_place: bool, keep: bool, names: &[&str]) -> ReEncryptArgs {
    ReEncryptArgs {
        in_place,
        keep_recipients: keep,
        keys: vec![],
        key_files: vec![],
        recipients: vec![],
        recipient_files: vec![],
        remove_recipients: vec![],
        remove_recipient_files: vec![],
        output: "-".to_string(),
        files: files(names),
    }
}

fn encrypt_content(public: &str) -> Document {
    let out = encrypt(&encrypt_args(false, &["file.yaml"]), &vec![parse(YAML_CONTENT)], &vec![public.to_string()]);
    out.unwrap().pop().unwrap()
}

#[test]
fn check_clear() {
    let d = parse(YAML_CONTENT);
    assert_eq!(check_document(&d).status, EncryptionStatus::NotEncrypted);
    assert_eq!(check(&vec![d]), 1);
}

#[test]
fn check_encrypted() {
    let (_, public) = create_key();
    let e = encrypt_content(&public);
    assert_eq!(check(&vec![e]), 0);
}

#[test]
fn check_mixed() {
    let (_, public) = create_key();
    let text = render(&encrypt_content(&public)) + "auie: tsrn\n";
    let d = parse(&text);
    assert_eq!(check_document(&d).status, EncryptionStatus::Mixed);
    assert_eq!(check(&vec![d]), 1);
}

#[test]
fn check_inconsistent_recipients() {
    let (_, public) = create_key();
    let (_, public2) = create_key();
    let other = encrypt(&encrypt_args(false, &["file2.yaml"]), &vec![parse("auie: tsrn\n")], &vec![public2]);
    let text = render(&encrypt_content(&public)) + &render(&other.unwrap()[0]);
    let d = parse(&text);
    assert!(!check_document(&d).consistent);
    assert_eq!(check(&vec![d]), 1);
}

#[test]
fn encrypt_to_stdout() {
    let (id, public) = create_key();
    let e = encrypt_content(&public);
    let text = render(&e);
    assert!(text.starts_with("foo: yage["));
    assert!(text.contains("empty_map: {}\n"));
    assert!(text.contains("empty_array: []\n"));
    assert!(text.contains("empty_string: yage["));
    assert!(text.ends_with("empty: null\n"));
    assert_eq!(decrypt_yaml(&parse(&text), &vec![id]).unwrap(), parse(YAML_CONTENT));
}

#[test]
fn encrypt_no_recipient() {
    let r = encrypt(&encrypt_args(false, &["file.yaml"]), &vec![parse(YAML_CONTENT)], &vec![]);
    assert!(matches!(r, Err(YageError::NoRecipients)));
}

#[test]
fn encrypt_stdin_in_place() {
    let r = encrypt(&encrypt_args(true, &["-"]), &vec![parse(YAML_CONTENT)], &vec![]);
    assert!(matches!(r, Err(YageError::InPlaceStdin)));
}

#[test]
fn encrypt_partially_encrypted() {
    let (id, public) = create_key();
    let raw_encrypted_data = render(&encrypt_content(&public));
    assert_eq!(yage::status::check_encrypted(&parse(&raw_encrypted_data)), EncryptionStatus::Encrypted);
    let appended = raw_encrypted_data.clone() + "auie: tsrn\n";
    assert_eq!(yage::status::check_encrypted(&parse(&appended)), EncryptionStatus::Mixed);
    let again = encrypt(&encrypt_args(false, &["file.enc.yaml"]), &vec![parse(&appended)], &vec![public]);
    let raw_encrypted_data2 = render(&again.unwrap()[0]);
    assert!(raw_encrypted_data2.starts_with(&raw_encrypted_data));
    let encrypted_data2 = parse(&raw_encrypted_data2);
    assert_eq!(yage::status::check_encrypted(&encrypted_data2), EncryptionStatus::Encrypted);
    assert!(decrypt_yaml(&encrypted_data2, &vec![id]).is_ok());
}

#[test]
fn decrypt_to_stdout() {
    let (id, public) = create_key();
    let e = encrypt_content(&public);
    let out = decrypt(&decrypt_args(false, &["file.enc.yaml"]), &vec![e], &vec![id]).unwrap();
    assert_eq!(render(&out[0]), YAML_CONTENT);
}

#[test]
fn decrypt_stdin_in_place() {
    assert!(matches!(decrypt(&decrypt_args(true, &["-"]), &vec![], &vec![]), Err(YageError::InPlaceStdin)));
}

#[test]
fn decrypt_multiple_files_no_in_place() {
    let r = decrypt(&decrypt_args(false, &["foo.yaml", "bar.yaml"]), &vec![], &vec![]);
    assert!(matches!(r, Err(YageError::InvalidNumberOfInputFiles)));
}

#[test]
fn re_encrypt_to_stdout() {
    let (id, public) = create_key();
    let (id2, public2) = create_key();
    let e = encrypt_content(&public);
    let out = re_encrypt(&re_encrypt_args(false, false, &["file.enc.yaml"]), &vec![e], &vec![id], &vec![public2], &vec![]).unwrap();
    assert_eq!(yage::status::check_encrypted(&out[0]), EncryptionStatus::Encrypted);
    assert_eq!(render(&decrypt_yaml(&out[0], &vec![id2]).unwrap()), YAML_CONTENT);
}

#[test]
fn re_encrypt_keep_recipients() {
    let (id, public) = create_key();
    let (id2, public2) = create_key();
    let e = encrypt_content(&public);
    let out = re_encrypt(&re_encrypt_args(false, true, &["file.enc.yaml"]), &vec![e], &vec![id.clone()], &vec![public2], &vec![]).unwrap();
    assert_eq!(render(&decrypt_yaml(&out[0], &vec![id]).unwrap()), YAML_CONTENT);
    assert_eq!(render(&decrypt_yaml(&out[0], &vec![id2]).unwrap()), YAML_CONTENT);
}

#[test]
fn re_encrypt_no_recipient() {
    let (id, public) = create_key();
    let e = encrypt_content(&public);
    let r = re_encrypt(&re_encrypt_args(false, false, &["file.enc.yaml"]), &vec![e], &vec![id], &vec![], &vec![]);
    assert!(matches!(r, Err(YageError::NoRecipients)));
}

#[test]
fn re_encrypt_no_key() {
    let (_, public) = create_key();
    let e = encrypt_content(&public);
    let r = re_encrypt(&re_encrypt_args(false, false, &["file.enc.yaml"]), &vec![e], &vec![], &vec![public], &vec![]);
    assert!(matches!(r, Err(YageError::NoKeys)));
}

#[test]
fn re_encrypt_stdin_in_place() {
    let r = re_encrypt(&re_encrypt_args(true, false, &["-"]), &vec![], &vec![], &vec![], &vec![]);
    assert!(matches!(r, Err(YageError::InPlaceStdin)));
}

#[test]
fn re_encrypt_multiple_files_no_in_place() {
    let r = re_encrypt(&re_encrypt_args(false, false, &["foo.yaml", "bar.yaml"]), &vec![], &vec![], &vec![], &vec![]);
    assert!(matches!(r, Err(YageError::InvalidNumberOfInputFiles)));
}
