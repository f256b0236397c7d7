use crate::document::{Doc, Document};
use crate::error::YageError;
use crate::text::texts;
use bech32::FromBase32;
use base64::prelude::{Engine, BASE64_STANDARD};
use std::io::{Read, Write};
use substring::Substring;
use vstd::prelude::*;

verus! {

/// Relies on `substring::Substring::substring`: the characters of `s` from index `start`
/// up to, not including, index `end`, counted in characters.
#[verifier::external_body]
pub(crate) fn char_range(s: &str, start: usize, end: usize) -> (r: String)
    requires
        start <= end <= s@.len(),
    ensures
        r@ == s@.subrange(start as int, end as int),
{
    s.substring(start, end).to_string()
}

/// `age::DecryptError`, carried through as an opaque value.
#[verifier::external_type_specification]
#[verifier::external_body]
pub struct ExDecryptError(age::DecryptError);

/// `age::EncryptError`, carried through as an opaque value.
#[verifier::external_type_specification]
#[verifier::external_body]
pub struct ExEncryptError(age::EncryptError);

/// `base64::DecodeError`, carried through as an opaque value.
#[verifier::external_type_specification]
#[verifier::external_body]
pub struct ExDecodeError(base64::DecodeError);

/// `serde_yaml::Value`, the YAML tree that `serde_yaml` reads and writes.
#[verifier::external_type_specification]
#[verifier::external_body]
pub struct ExYamlValue(serde_yaml::Value);

/// `serde_yaml::Error`, carried through as an opaque value.
#[verifier::external_type_specification]
#[verifier::external_body]
pub struct ExYamlError(serde_yaml::Error);



/// Whether a text parses as an age X25519 public key.
pub uninterp spec fn recipient_parses(s: Seq<char>) -> bool;

/// An ASCII letter or digit.
pub open spec fn is_ascii_alphanumeric(c: char) -> bool {
    ('a' <= c && c <= 'z') || ('A' <= c && c <= 'Z') || ('0' <= c && c <= '9')
}

/// The text that age writes for the public key that a recipient text stands for.
pub uninterp spec fn recipient_text_of(s: Seq<char>) -> Seq<char>;

/// Whether the X25519 key of a recipient text has large order, so that a Diffie-Hellman
/// exchange with it never gives the all-zero secret.
pub uninterp spec fn recipient_contributory(s: Seq<char>) -> bool;

/// Relies on `age::x25519::Recipient::from_str` and the `Display` of the key it gives: it
/// accepts a Bech32 text with the `age` prefix, and writes the key back in lower-case
/// Bech32, made of ASCII letters and digits, which parses again.
#[verifier::external_body]
pub(crate) fn parse_recipient(s: &str) -> (r: Result<String, &'static str>)
    ensures
        r is Ok <==> recipient_parses(s@),
        r is Ok ==> r->Ok_0@ == recipient_text_of(s@) && recipient_parses(r->Ok_0@),
        r is Ok ==> forall|i: int|
            0 <= i < r->Ok_0@.len() ==> is_ascii_alphanumeric(#[trigger] r->Ok_0@[i]),
{
    s.parse::<age::x25519::Recipient>().map(|r| r.to_string())
}

/// Relies on `bech32::decode` and `x25519_dalek::SharedSecret::was_contributory`: the key
/// gives a non-zero secret with a clamped scalar, which holds for every clamped scalar
/// exactly when the key has large order.
#[verifier::external_body]
pub(crate) fn is_contributory(s: &str) -> (r: bool)
    requires
        recipient_parses(s@),
    ensures
        r == recipient_contributory(s@),
{
    let data = match bech32::decode(s) {
        Ok((_, data, _)) => data,
        Err(_) => return false,
    };
    let bytes: [u8; 32] = match Vec::<u8>::from_base32(&data).ok().and_then(|b| b.try_into().ok()) {
        Some(b) => b,
        None => return false,
    };
    let secret = x25519_dalek::StaticSecret::from([1u8; 32]);
    secret.diffie_hellman(&x25519_dalek::PublicKey::from(bytes)).was_contributory()
}

/// A character of the standard base64 alphabet, padding included.
pub open spec fn is_base64_char(c: char) -> bool {
    is_ascii_alphanumeric(c) || c == '+' || c == '/' || c == '='
}

/// The standard, padded base64 text of some bytes.
pub uninterp spec fn base64_text_of(bytes: Seq<u8>) -> Seq<char>;

/// The bytes that a standard, padded base64 text stands for, if it is valid.
pub uninterp spec fn base64_bytes_of(text: Seq<char>) -> Option<Seq<u8>>;

/// The plaintext that an age ciphertext holds.
pub uninterp spec fn age_payload_of(ciphertext: Seq<u8>) -> Seq<u8>;

/// Whether the private keys with these texts open an age ciphertext.
pub uninterp spec fn age_opens(ciphertext: Seq<u8>, keys: Seq<Seq<char>>) -> bool;

/// The text of the public key of the private key with this text.
pub uninterp spec fn public_key_of(secret: Seq<char>) -> Seq<char>;

/// Every key text parses, and the public key of one of them is among the recipients.
pub open spec fn keys_match(keys: Seq<Seq<char>>, recipients: Seq<Seq<char>>) -> bool {
    &&& forall|j: int| 0 <= j < keys.len() ==> identity_parses(#[trigger] keys[j])
    &&& exists|j: int| 0 <= j < keys.len() && recipients.contains(public_key_of(#[trigger] keys[j]))
}

/// Any key set that matches one of the recipients opens the ciphertext.
pub open spec fn opens_for(ciphertext: Seq<u8>, recipients: Seq<Seq<char>>) -> bool {
    forall|keys: Seq<Seq<char>>| keys_match(keys, recipients) ==> #[trigger] age_opens(ciphertext, keys)
}

/// The YAML text, as UTF-8 bytes, that `serde_yaml` writes for a document.
pub uninterp spec fn yaml_bytes_of(d: Doc) -> Seq<u8>;

/// The document that `serde_yaml` reads from a YAML text, if it reads one.
pub uninterp spec fn yaml_value_of(bytes: Seq<u8>) -> Option<Doc>;

/// Relies on `base64::Engine::encode` with the standard padded alphabet: the text is
/// made of that alphabet, and decoding it gives the bytes back.
#[verifier::external_body]
pub(crate) fn base64_encode(bytes: &Vec<u8>) -> (r: String)
    ensures
        r@ == base64_text_of(bytes@),
        forall|i: int| 0 <= i < r@.len() ==> is_base64_char(#[trigger] r@[i]),
        base64_bytes_of(r@) == Some(bytes@),
{
    BASE64_STANDARD.encode(bytes)
}

/// Relies on `base64::Engine::decode` with the standard padded alphabet.
#[verifier::external_body]
pub(crate) fn base64_decode(text: &str) -> (r: Result<Vec<u8>, base64::DecodeError>)
    ensures
        r is Ok <==> base64_bytes_of(text@) is Some,
        r is Ok ==> base64_bytes_of(text@) == Some(r->Ok_0@),
{
    BASE64_STANDARD.decode(text)
}

/// Relies on `age::Encryptor::with_recipients` and its stream writer: for a non-empty list
/// of recipients it gives an encryptor, whose writes go to a `Vec` and cannot fail, and each
/// X25519 key of large order wraps the file key. The ciphertext holds the plaintext and
/// opens with any identity of one of the recipients.
#[verifier::external_body]
pub(crate) fn age_seal(plain: &Vec<u8>, recipients: &Vec<String>) -> (r: Result<
    Vec<u8>,
    age::EncryptError,
>)
    requires
        recipients@.len() > 0,
        forall|i: int|
            0 <= i < recipients@.len() ==> recipient_parses(#[trigger] recipients@[i]@)
                && recipient_contributory(recipients@[i]@),
    ensures
        r is Ok,
        r is Ok ==> age_payload_of(r->Ok_0@) == plain@,
        r is Ok ==> opens_for(r->Ok_0@, texts(recipients@)),
{
    let invalid = || std::io::Error::from(std::io::ErrorKind::InvalidInput);
    let keys = recipients.iter().map(|s| s.parse::<age::x25519::Recipient>().map_err(|_| invalid())).collect::<Result<Vec<_>, _>>()?;
    let boxed = keys.into_iter().map(|r| Box::new(r) as Box<dyn age::Recipient + Send>).collect();
    let encryptor = age::Encryptor::with_recipients(boxed).ok_or_else(invalid)?;
    let mut out = vec![];
    let mut writer = encryptor.wrap_output(&mut out)?;
    writer.write_all(plain)?;
    writer.finish()?;
    Ok(out)
}

/// Relies on `age::Decryptor::new` and `RecipientsDecryptor::decrypt`: what comes out is
/// the plaintext that the ciphertext holds, and it comes out exactly when the keys open the
/// ciphertext. A passphrase ciphertext is refused.
#[verifier::external_body]
pub(crate) fn age_open(ciphertext: &Vec<u8>, keys: &Vec<String>) -> (r: Result<Vec<u8>, YageError>)
    requires
        forall|j: int| 0 <= j < keys@.len() ==> identity_parses(#[trigger] keys@[j]@),
    ensures
        r is Ok <==> age_opens(ciphertext@, texts(keys@)),
        r is Ok ==> r->Ok_0@ == age_payload_of(ciphertext@),
        r is Err ==> r->Err_0 is Decrypt || r->Err_0 is PassphraseUnsupported,
{
    let identities = keys.iter().map(|k| k.parse::<age::x25519::Identity>()).collect::<Result<Vec<_>, _>>()
        .map_err(|_| YageError::Decrypt(age::DecryptError::NoMatchingKeys))?;
    let decryptor = match age::Decryptor::new(&ciphertext[..]).map_err(YageError::Decrypt)? {
        age::Decryptor::Recipients(d) => d,
        _ => return Err(YageError::PassphraseUnsupported),
    };
    let ids = identities.iter().map(|i| i as &dyn age::Identity);
    let mut reader = decryptor.decrypt(ids).map_err(YageError::Decrypt)?;
    let mut plain = vec![];
    reader.read_to_end(&mut plain).map_err(|e| YageError::Decrypt(e.into()))?;
    Ok(plain)
}

/// Whether `serde_yaml` can write a document: every number text reads as a YAML number and
/// every tagged text as a YAML value.
pub uninterp spec fn yaml_renders(d: Doc) -> bool;

/// Relies on `serde_yaml::to_string`.
#[verifier::external_body]
pub(crate) fn yaml_render(d: &Document) -> (r: Result<Vec<u8>, serde_yaml::Error>)
    ensures
        r is Ok <==> yaml_renders(d@),
        r is Ok ==> r->Ok_0@ == yaml_bytes_of(d@),
{
    serde_yaml::to_string(&yaml_from_document(d)?).map(String::into_bytes)
}

/// Relies on `serde_yaml::from_slice`.
#[verifier::external_body]
pub(crate) fn yaml_parse(bytes: &Vec<u8>) -> (r: Result<Document, serde_yaml::Error>)
    ensures
        r is Ok <==> yaml_value_of(bytes@) is Some,
        r is Ok ==> yaml_value_of(bytes@) == Some(r->Ok_0@),
{
    serde_yaml::from_slice::<serde_yaml::Value>(bytes).map(document_from_yaml)
}

/// The YAML value for a document, node for node; a number's text is read back as a
/// YAML number, and a tagged value's text as the tagged value.
#[verifier::external_body]
fn yaml_from_document(d: &Document) -> Result<serde_yaml::Value, serde_yaml::Error> {
    Ok(match d {
        Document::Null => serde_yaml::Value::Null,
        Document::Bool(b) => serde_yaml::Value::Bool(*b),
        Document::Tagged(t) => serde_yaml::from_str(t)?,
        Document::Number(n) => serde_yaml::Value::Number(n.parse()?),
        Document::String(s) => serde_yaml::Value::String(s.clone()),
        Document::Sequence(items) => serde_yaml::Value::Sequence(
            items.iter().map(yaml_from_document).collect::<Result<_, _>>()?,
        ),
        Document::Mapping(keys, values) => serde_yaml::Value::Mapping(
            keys.iter().zip(values).map(|(k, v)| Ok((yaml_from_document(k)?, yaml_from_document(v)?))).collect::<Result<_, serde_yaml::Error>>()?,
        ),
    })
}

/// The document for a YAML value, node for node; a number keeps its canonical text and a
/// tagged value keeps its YAML text.
#[verifier::external_body]
fn document_from_yaml(v: serde_yaml::Value) -> Document {
    match v {
        serde_yaml::Value::Null => Document::Null,
        serde_yaml::Value::Bool(b) => Document::Bool(b),
        serde_yaml::Value::Number(n) => Document::Number(n.to_string()),
        serde_yaml::Value::String(s) => Document::String(s),
        serde_yaml::Value::Sequence(items) => Document::Sequence(items.into_iter().map(document_from_yaml).collect()),
        serde_yaml::Value::Mapping(m) => {
            let (keys, values) = m.into_iter().map(|(k, v)| (document_from_yaml(k), document_from_yaml(v))).unzip();
            Document::Mapping(keys, values)
        },
        tagged @ serde_yaml::Value::Tagged(_) => {
            Document::Tagged(serde_yaml::to_string(&tagged).map(|t| t.trim_end().to_string()).unwrap_or_default())
        },
    }
}

/// Whether a text parses as an age X25519 private key.
pub uninterp spec fn identity_parses(s: Seq<char>) -> bool;

/// Relies on `age::x25519::Identity::from_str`.
#[verifier::external_body]
pub(crate) fn parse_identity(s: &str) -> (r: Result<(), &'static str>)
    ensures
        r is Ok <==> identity_parses(s@),
{
    s.parse::<age::x25519::Identity>().map(|_| ())
}

/// Relies on `age::x25519::Identity::from_str`, `Identity::to_public` and the `Display`
/// of `age::x25519::Recipient`: the Bech32 text of the public key, which parses back as a
/// recipient.
#[verifier::external_body]
pub(crate) fn public_key_text(secret: &str) -> (r: String)
    requires
        identity_parses(secret@),
    ensures
        r@ == public_key_of(secret@),
        recipient_parses(r@),
{
    secret.parse::<age::x25519::Identity>().map(|i| i.to_public().to_string()).unwrap_or_default()
}

} // verus!
