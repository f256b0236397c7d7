use vstd::prelude::*;

verus! {

/// The arguments of `check`: the files to check.
pub struct CheckArgs {
    pub files: Vec<String>,
}

/// The arguments of `decrypt`.
pub struct DecryptArgs {
    pub in_place: bool,
    pub keys: Vec<String>,
    pub key_files: Vec<String>,
    pub output: String,
    pub files: Vec<String>,
}

/// The arguments of `edit`.
pub struct EditArgs {
    pub editor: String,
    pub keys: Vec<String>,
    pub key_files: Vec<String>,
    pub file: String,
}

/// The arguments of `encrypt`.
pub struct EncryptArgs {
    pub in_place: bool,
    pub recipients: Vec<String>,
    pub recipient_files: Vec<String>,
    pub output: String,
    pub files: Vec<String>,
}

/// The arguments of `env`.
pub struct EnvArgs {
    pub ignore_environment: bool,
    pub keys: Vec<String>,
    pub key_files: Vec<String>,
    pub file: String,
    pub command: String,
    pub args: Vec<String>,
}

/// The arguments of `keygen`.
pub struct KeygenArgs {
    pub output: String,
    pub public: Option<String>,
}

/// The arguments of `pubkey`.
pub struct PubkeyArgs {
    pub key_files: Vec<String>,
    pub keys: Vec<String>,
    pub output: String,
}

/// The arguments of `recipients`.
pub struct RecipientsArgs {
    pub only_recipients: bool,
    pub output: String,
    pub files: Vec<String>,
}

/// The arguments of `re-encrypt`.
pub struct ReEncryptArgs {
    pub in_place: bool,
    pub keep_recipients: bool,
    pub keys: Vec<String>,
    pub key_files: Vec<String>,
    pub recipients: Vec<String>,
    pub recipient_files: Vec<String>,
    pub remove_recipients: Vec<String>,
    pub remove_recipient_files: Vec<String>,
    pub output: String,
    pub files: Vec<String>,
}

/// The commands of the tool.
pub enum Commands {
    Check(CheckArgs),
    Decrypt(DecryptArgs),
    Edit(EditArgs),
    Encrypt(EncryptArgs),
    Env(EnvArgs),
    Keygen(KeygenArgs),
    Pubkey(PubkeyArgs),
    Recipients(RecipientsArgs),
    ReEncrypt(ReEncryptArgs),
}

} // verus!
