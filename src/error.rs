use vstd::prelude::*;

verus! {

/// What can go wrong in the library's operations.
#[derive(Debug)]
pub enum YageError {
    /// A token's payload is not valid base64.
    Base64Decode(base64::DecodeError),
    /// No supplied identity can open a token, or its ciphertext is malformed.
    Decrypt(age::DecryptError),
    /// Encryption to the recipients failed.
    Encrypt(age::EncryptError),
    /// An input named standard input and asked for in-place writing.
    InPlaceStdin,
    /// Not in place, yet not exactly one input file.
    InvalidNumberOfInputFiles,
    /// The recipients given disagree with those recorded in the document.
    InvalidRecipients,
    /// A text that had to be a token is not one.
    InvalidValueEncoding,
    /// A path of the edited document is missing from the original one.
    KeyNotFound,
    /// A private key could not be parsed.
    KeyParse { message: String },
    /// No private key was supplied.
    NoKeys,
    /// Encryption was asked for with no recipient.
    NoRecipients,
    /// The document is not a mapping.
    NotAMap,
    /// A value is neither a string nor a number.
    NotAStringOrNumber,
    /// A ciphertext is passphrase-protected, which is not supported.
    PassphraseUnsupported,
    /// A recipient could not be parsed.
    RecipientParse { recipient: String, message: String },
    /// A YAML text could not be produced or read.
    Yaml(serde_yaml::Error),
}

} // verus!
